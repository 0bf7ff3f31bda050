//! The tree of tagged elements, how it is built, and how it becomes text.
use crate::layout::{
    arranged, arranged_child, arranged_children, arranged_item, child_indent, finished_text,
    include_directive, layout_child, layout_children, layout_items, layout_node,
    lemma_arranged_child_key, lemma_layout_node_clamped, GroupProgress, Progress,
};
use crate::model::{
    children_depth, item_depth, lemma_children_depth_bound, lemma_children_depth_least,
    lemma_items_depth_bound, Child, Item, Node,
};
use crate::order::{
    child_le, is_leading_tag, key_lt, lemma_child_le_total_preorder, lemma_key_lt_asymmetric,
    lemma_key_lt_irreflexive, lemma_key_lt_then_le, lemma_key_lt_total, lemma_merge_takes_left,
    lemma_merge_takes_right, lemma_merged_is_sorted, lemma_sorted_children_keeps,
    lemma_sorted_children_map, lemma_sorted_children_ordered, lemma_with_key_none, ordered,
    sort_key, sorted_children, with_key, SortKey,
};
use crate::text::{compare_text, same_text};
use crate::whitespace::{lemma_separator_next_line, make_whitespace};
use std::cmp::Ordering;
use vstd::prelude::*;
use vstd::string::{StrSliceExecFns, StringExecFns};

verus! {

enum WriterItem {
    StaticItem(u32, String),
    TaggedGroup(Vec<(String, Writer, bool)>),
    Break,
}

/// An element of the tree under construction. Its view is a [`Node`].
///
/// Rendering takes the tree by value: a tree is written once.
pub struct Writer {
    file: Option<String>,
    line: u32,
    items: Vec<WriterItem>,
}

/// Write access to one group of a [`Writer`], for adding its children.
///
/// While the handle lives, nothing else can reach the element that owns the
/// group.
pub struct TaggedGroupHandle<'a> {
    /// The element that owns the group.
    pub owner: &'a mut Writer,
    /// Which entry of the element the group is.
    pub tagged_group_idx: usize,
}

/// The text of an optional file name.
pub open spec fn file_view(file: Option<String>) -> Option<Seq<char>> {
    match file {
        Some(path) => Some(path@),
        None => None,
    }
}

impl View for Writer {
    type V = Node;

    closed spec fn view(&self) -> Node
        decreases self,
    {
        Node {
            file: file_view(self.file),
            line: self.line,
            items: Seq::new(
                self.items@.len(),
                |i: int|
                    if 0 <= i < self.items@.len() {
                        item_view(self.items@[i])
                    } else {
                        Item::Break
                    },
            ),
        }
    }
}

spec fn item_view(item: WriterItem) -> Item
    decreases item,
{
    match item {
        WriterItem::StaticItem(line, text) => Item::Text { line, text: text@ },
        WriterItem::TaggedGroup(group) => Item::Group { children: children_view(group@) },
        WriterItem::Break => Item::Break,
    }
}

/// The children that the entries of a group stand for, in their order.
pub open spec fn children_view(group: Seq<(String, Writer, bool)>) -> Seq<Child>
    decreases group,
{
    Seq::new(
        group.len(),
        |i: int|
            if 0 <= i < group.len() {
                child_view(group[i])
            } else {
                Child { tag: Seq::empty(), node: Node::empty(None, 0), is_block: false }
            },
    )
}

/// The child that one entry of a group stands for.
pub open spec fn child_view(entry: (String, Writer, bool)) -> Child
    decreases entry,
{
    Child { tag: entry.0@, node: entry.1@, is_block: entry.2 }
}

/// The texts of a list of strings.
pub open spec fn texts(list: Seq<String>) -> Seq<Seq<char>> {
    list.map_values(|s: String| s@)
}

/// Tells whether `path` is in `list`.
fn contains_text(list: &Vec<String>, path: &str) -> (found: bool)
    ensures
        found == texts(list@).contains(path@),
{
    let mut i: usize = 0;
    while i < list.len()
        invariant
            i <= list.len(),
            forall|k: int| 0 <= k < i ==> texts(list@)[k] != path@,
        decreases list.len() - i,
    {
        if same_text(list[i].as_str(), path) {
            assert(texts(list@)[i as int] == path@);
            return true;
        }
        i += 1;
    }
    false
}

/// The entries of `list` from the last to the first.
fn reversed(list: Vec<(String, Writer, bool)>) -> (out: Vec<(String, Writer, bool)>)
    ensures
        out@.len() == list@.len(),
        forall|k: int| 0 <= k < out@.len() ==> out@[k] == list@[list@.len() - 1 - k],
{
    let mut rest = list;
    let mut out: Vec<(String, Writer, bool)> = Vec::new();
    while rest.len() > 0
        invariant
            rest@.len() <= list@.len(),
            out@.len() == list@.len() - rest@.len(),
            forall|k: int| 0 <= k < rest@.len() ==> rest@[k] == list@[k],
            forall|k: int| 0 <= k < out@.len() ==> out@[k] == list@[list@.len() - 1 - k],
        decreases rest@.len(),
    {
        match rest.pop() {
            Some(entry) => {
                out.push(entry);
            },
            None => {},
        }
    }
    out
}

/// Tells whether `tag` is one of the two leading tags.
fn has_leading_tag(tag: &str) -> (leading: bool)
    ensures
        leading == is_leading_tag(tag@),
{
    same_text(tag, "ASAP2_VERSION") || same_text(tag, "A2ML")
}

/// Sorting keeps the depth of the children within the depth before.
proof fn lemma_sorted_children_depth(s: Seq<Child>)
    ensures
        sorted_children(s).len() == s.len(),
        children_depth(sorted_children(s), s.len()) <= children_depth(s, s.len()),
{
    let bound = children_depth(s, s.len());
    let below = |c: Child| c.node.depth() < bound;
    assert forall|i: int| 0 <= i < s.len() implies below(#[trigger] s[i]) by {
        lemma_children_depth_bound(s, s.len(), i);
    }
    lemma_sorted_children_keeps(s, below);
    let t = sorted_children(s);
    assert forall|i: int| 0 <= i < t.len() implies (#[trigger] t[i]).node.depth() < bound by {
        assert(below(t[i]));
    }
    lemma_children_depth_least(t, t.len(), bound);
}

/// Rendering is a function of the contents alone: two trees with the same
/// view become the same text, whatever room was made for their groups.
pub proof fn lemma_same_contents_same_text(a: Writer, b: Writer)
    requires
        a@ == b@,
    ensures
        finished_text(a@) == finished_text(b@),
{
}

impl Writer {
    /// Makes an element without content, from line `line` of `file`.
    pub fn new(file: &Option<String>, line: u32) -> (writer: Self)
        ensures
            writer@ == Node::empty(file_view(*file), line),
    {
        let writer = Self { file: file.clone(), line, items: Vec::new() };
        assert(writer@.items =~= Seq::empty());
        writer
    }

    /// Adds a piece of finished text that belongs on line `position`.
    pub fn add_fixed_item(&mut self, item: String, position: u32)
        ensures
            final(self)@ == old(self)@.with_item(Item::Text { line: position, text: item@ }),
    {
        self.items.push(WriterItem::StaticItem(position, item));
        assert(self@.items =~= old(self)@.items.push(Item::Text { line: position, text: item@ }));
    }

    /// Adds a break marker if `position` is the line number of an item made
    /// at run time: 0 or the largest line number.
    pub fn add_break_if_new_item(&mut self, position: u32)
        ensures
            final(self)@ == if position == 0 || position == u32::MAX {
                old(self)@.with_item(Item::Break)
            } else {
                old(self)@
            },
    {
        if position == 0 || position == u32::MAX {
            self.items.push(WriterItem::Break);
            assert(self@.items =~= old(self)@.items.push(Item::Break));
        }
    }

    /// Opens a new, empty group at the end of this element and hands out the
    /// handle through which its children are added. `size` is the number of
    /// children to make room for; where that much room cannot be had, the
    /// group grows as children are added.
    ///
    /// When the handle is gone, this element is what the handle made of it.
    pub fn add_tagged_group(&mut self, size: usize) -> (handle: TaggedGroupHandle<'_>)
        ensures
            handle.wf(),
            handle.tagged_group_idx == old(self)@.items.len(),
            handle.owner@ == old(self)@.with_item(Item::Group { children: Seq::empty() }),
            *final(self) == *final(handle.owner),
    {
        let mut group: Vec<(String, Writer, bool)> = Vec::new();
        match group.try_reserve(size) {
            Ok(()) => {},
            Err(_) => {},
        }
        assert(children_view(group@) =~= Seq::empty());
        self.items.push(WriterItem::TaggedGroup(group));
        let idx = self.items.len() - 1;
        assert(self@.items =~= old(self)@.items.push(Item::Group { children: Seq::empty() }));
        TaggedGroupHandle { owner: self, tagged_group_idx: idx }
    }

    /// Renders the tree: the children of every group in their written order,
    /// every token on its line, and without the separator that would stand
    /// in front of the first token.
    pub fn finish(self) -> (out: String)
        ensures
            out@ == finished_text(self@),
    {
        let (_, text) = self.finish_internal(0);
        let len = text.as_str().unicode_len();
        if len == 0 {
            text
        } else {
            text.as_str().substring_char(1, len).to_owned()
        }
    }

    /// Renders the entries of this element at nesting level `indent`.
    /// Returns the line on which the text ends, and the text.
    pub fn finish_internal(self, indent: usize) -> (done: (u32, String))
        ensures
            done.0 == layout_node(arranged(self@), indent as nat).line,
            done.1@ == layout_node(arranged(self@), indent as nat).text,
        decreases self@.depth(), 1nat,
    {
        let ghost me = self@;
        let ghost node = arranged(self@);
        let mut outstring = String::new();
        let mut current_line = self.line;
        let mut empty_block = true;
        let mut should_break = false;
        let items = self.items;
        for item in it: items
            invariant
                it.seq() == items@,
                me == self@,
                me.items.len() == items@.len(),
                node == arranged(me),
                node.line == me.line,
                forall|k: int| 0 <= k < items@.len() ==> me.items[k] == item_view(items@[k]),
                layout_items(node.line, node.items, indent as nat, it.index() as nat) == (Progress {
                    cursor: current_line,
                    pending_break: should_break,
                    text: outstring@,
                }),
                empty_block == (it.index() == 0),
        {
            let ghost at = it.index() as int;
            let ghost before = layout_items(node.line, node.items, indent as nat, at as nat);
            assert(node.items[at] == arranged_item(me.items[at]));
            assert(me.items[at] == item_view(item));
            match item {
                WriterItem::StaticItem(item_line, text) => {
                    outstring.append(
                        make_whitespace(current_line, item_line, indent, should_break, false),
                    );
                    outstring.append(text.as_str());
                    should_break = false;
                    current_line = item_line;
                },
                WriterItem::Break => {
                    should_break = true;
                },
                WriterItem::TaggedGroup(group) => {
                    let ghost unsorted = children_view(group@);
                    let group = Self::sort_group(group);
                    proof {
                        assert forall|c: Child| sort_key(#[trigger] arranged_child(c)) == sort_key(
                            c,
                        ) by {
                            lemma_arranged_child_key(c);
                        }
                        let change = |c: Child| arranged_child(c);
                        lemma_sorted_children_map(unsorted, change);
                        assert(unsorted.map_values(change) =~= arranged_children(unsorted));
                        lemma_sorted_children_keeps(unsorted, |c: Child| true);
                        assert(sorted_children(unsorted).map_values(change) =~= arranged_children(
                            sorted_children(unsorted),
                        ));
                        lemma_sorted_children_depth(unsorted);
                        lemma_items_depth_bound(me.items, me.items.len(), at);
                        assert(item_depth(me.items[at]) == children_depth(
                            unsorted,
                            unsorted.len(),
                        ));
                        assert(children_depth(children_view(group@), group@.len())
                            <= me.depth());
                    }
                    let (last_line, text) = Self::finish_group(
                        current_line,
                        group,
                        indent,
                        empty_block,
                    );
                    outstring.append(text.as_str());
                    current_line = last_line;
                },
            }
            empty_block = false;
        }
        (current_line, outstring)
    }

    /// Renders the children of a group in the order given, after text that
    /// ends on `start_line`. `empty_block` tells whether the group opens its
    /// element. Returns the line on which the text ends, and the text.
    pub fn finish_group(
        start_line: u32,
        group: Vec<(String, Writer, bool)>,
        indent: usize,
        empty_block: bool,
    ) -> (done: (u32, String))
        ensures
            done.0 == layout_children(
                start_line,
                arranged_children(children_view(group@)),
                indent as nat,
                empty_block,
                group@.len(),
            ).cursor,
            done.1@ == layout_children(
                start_line,
                arranged_children(children_view(group@)),
                indent as nat,
                empty_block,
                group@.len(),
            ).text,
        decreases children_depth(children_view(group@), group@.len()), 0nat,
    {
        let ghost given = children_view(group@);
        let ghost children = arranged_children(given);
        let mut outstring = String::new();
        let mut current_line = start_line;
        let mut included_files: Vec<String> = Vec::new();
        let grouplen = group.len();
        assert(texts(included_files@) =~= Seq::empty());
        for entry in it: group
            invariant
                it.seq() == group@,
                grouplen == group@.len(),
                given == children_view(group@),
                children == arranged_children(given),
                layout_children(
                    start_line,
                    children,
                    indent as nat,
                    empty_block,
                    it.index() as nat,
                ) == (GroupProgress {
                    cursor: current_line,
                    text: outstring@,
                    included: texts(included_files@),
                }),
        {
            let ghost at = it.index() as int;
            let ghost before = layout_children(
                start_line,
                children,
                indent as nat,
                empty_block,
                at as nat,
            );
            let ghost child = children[at];
            let ghost inner = child_indent(
                indent as nat,
                empty_block,
                current_line,
                child.node.line,
                children.len(),
            );
            let ghost body = layout_node(child.node, inner);
            assert(child == arranged_child(child_view(entry)));
            assert(given[at] == child_view(entry));
            let (tag, item, is_block) = entry;
            if item.file.is_none() {
                outstring.append(make_whitespace(current_line, item.line, indent, true, is_block));
                let newindent = if empty_block && current_line == item.line && grouplen == 1 {
                    indent
                } else if indent < usize::MAX {
                    indent + 1
                } else {
                    indent
                };
                proof {
                    lemma_children_depth_bound(given, given.len(), at);
                    if newindent as nat != inner {
                        lemma_layout_node_clamped(child.node, newindent as nat, inner);
                    }
                }
                let (endline, text) = item.finish_internal(newindent);
                current_line = endline;
                if is_block {
                    outstring.append("/begin ");
                }
                outstring.append(tag.as_str());
                outstring.append(text.as_str());
                if is_block {
                    proof {
                        lemma_separator_next_line(current_line, indent as nat, false, false);
                    }
                    outstring.append(
                        make_whitespace(
                            current_line,
                            current_line.wrapping_add(1),
                            indent,
                            false,
                            false,
                        ),
                    );
                    outstring.append("/end ");
                    outstring.append(tag.as_str());
                    current_line = current_line.wrapping_add(1);
                }
                assert(outstring@ =~= layout_child(before, child, body, indent as nat).text);
            } else {
                match item.file {
                    Some(incfile) => {
                        if !contains_text(&included_files, incfile.as_str()) {
                            proof {
                                lemma_separator_next_line(current_line, indent as nat, true, true);
                            }
                            outstring.append(
                                make_whitespace(
                                    current_line,
                                    current_line.wrapping_add(1),
                                    indent,
                                    true,
                                    true,
                                ),
                            );
                            outstring.append("/include \"");
                            outstring.append(incfile.as_str());
                            outstring.append("\"");
                            current_line = current_line.wrapping_add(1);
                            let ghost listed = texts(included_files@);
                            included_files.push(incfile);
                            assert(texts(included_files@) =~= listed.push(incfile@));
                            assert(outstring@ =~= before.text + include_directive(
                                incfile@,
                                indent as nat,
                            ));
                        }
                    },
                    None => {},
                }
            }
        }
        (current_line, outstring)
    }

    /// Puts the entries of a group into their written order. The sort is a
    /// merge sort: stable, and the work grows as `n log n`.
    pub fn sort_group(group: Vec<(String, Writer, bool)>) -> (sorted: Vec<(String, Writer, bool)>)
        ensures
            children_view(sorted@) == sorted_children(children_view(group@)),
        decreases group@.len(),
    {
        let n = group.len();
        if n <= 1 {
            proof {
                let given = children_view(group@);
                if given.len() == 1 {
                    assert(sorted_children(given.drop_last()) =~= Seq::<Child>::empty());
                    assert(sorted_children(given) =~= seq![given[0]]);
                }
                assert(sorted_children(given) =~= given);
            }
            return group;
        }
        let mut left = group;
        let right = left.split_off(n / 2);
        let ghost first = children_view(left@);
        let ghost second = children_view(right@);
        assert(children_view(group@) =~= first + second);
        let left = Self::sort_group(left);
        let right = Self::sort_group(right);
        proof {
            lemma_sorted_children_ordered(first);
            lemma_sorted_children_ordered(second);
        }
        let sorted = Self::merge_groups(left, right);
        proof {
            lemma_merged_is_sorted(children_view(sorted@), first, second);
        }
        sorted
    }

    /// Merges two sorted runs of entries into one. Where two keys are
    /// equal, the entry of the left run goes first.
    fn merge_groups(
        left: Vec<(String, Writer, bool)>,
        right: Vec<(String, Writer, bool)>,
    ) -> (out: Vec<(String, Writer, bool)>)
        requires
            ordered(children_view(left@)),
            ordered(children_view(right@)),
        ensures
            ordered(children_view(out@)),
            forall|key: SortKey| #[trigger]
                with_key(children_view(out@), key) == with_key(children_view(left@), key)
                    + with_key(children_view(right@), key),
    {
        let ghost l = children_view(left@);
        let ghost r = children_view(right@);
        let mut rest_left = reversed(left);
        let mut rest_right = reversed(right);
        let mut out: Vec<(String, Writer, bool)> = Vec::new();
        proof {
            assert(children_view(out@) =~= Seq::<Child>::empty());
            assert(l.take(0) =~= Seq::<Child>::empty());
            assert(r.take(0) =~= Seq::<Child>::empty());
            assert forall|key: SortKey| #[trigger]
                with_key(children_view(out@), key) == with_key(l.take(0), key) + with_key(
                    r.take(0),
                    key,
                ) by {
                lemma_with_key_none(Seq::<Child>::empty(), key);
            }
        }
        while rest_left.len() > 0 || rest_right.len() > 0
            invariant
                rest_left@.len() <= l.len(),
                rest_right@.len() <= r.len(),
                ordered(l),
                ordered(r),
                forall|k: int|
                    0 <= k < rest_left@.len() ==> child_view(#[trigger] rest_left@[k]) == l[l.len()
                        - 1 - k],
                forall|k: int|
                    0 <= k < rest_right@.len() ==> child_view(#[trigger] rest_right@[k])
                        == r[r.len() - 1 - k],
                ordered(children_view(out@)),
                forall|p: int|
                    0 <= p < out@.len() && rest_left@.len() > 0 ==> child_le(
                        #[trigger] children_view(out@)[p],
                        l[l.len() - rest_left@.len()],
                    ),
                forall|p: int|
                    0 <= p < out@.len() && rest_right@.len() > 0 ==> child_le(
                        #[trigger] children_view(out@)[p],
                        r[r.len() - rest_right@.len()],
                    ),
                forall|k: int|
                    0 <= k < r.len() - rest_right@.len() && rest_left@.len() > 0 ==> key_lt(
                        sort_key(#[trigger] r[k]),
                        sort_key(l[l.len() - rest_left@.len()]),
                    ),
                forall|key: SortKey| #[trigger]
                    with_key(children_view(out@), key) == with_key(
                        l.take(l.len() - rest_left@.len()),
                        key,
                    ) + with_key(r.take(r.len() - rest_right@.len()), key),
            decreases rest_left@.len() + rest_right@.len(),
        {
            let ghost i = l.len() - rest_left@.len();
            let ghost j = r.len() - rest_right@.len();
            let ghost done = children_view(out@);
            let take_right = if rest_left.len() == 0 {
                true
            } else if rest_right.len() == 0 {
                false
            } else {
                Self::sorts_before(
                    &rest_right[rest_right.len() - 1],
                    &rest_left[rest_left.len() - 1],
                )
            };
            if take_right {
                let ghost c = r[j];
                assert(child_view(rest_right@[rest_right@.len() - 1]) == c);
                match rest_right.pop() {
                    Some(entry) => {
                        out.push(entry);
                    },
                    None => {},
                }
                proof {
                    assert(children_view(out@) =~= done.push(c));
                    let now = children_view(out@);
                    if rest_left@.len() > 0 {
                        lemma_key_lt_asymmetric(sort_key(c), sort_key(l[i]));
                    }
                    assert forall|p: int, q: int| 0 <= p <= q < now.len() implies child_le(
                        now[p],
                        now[q],
                    ) by {
                        lemma_child_le_total_preorder(c, c, c);
                        if q < done.len() {
                            assert(child_le(done[p], done[q]));
                        } else if p < done.len() {
                            assert(child_le(done[p], c));
                        }
                    }
                    assert forall|p: int|
                        0 <= p < out@.len() && rest_right@.len() > 0 implies child_le(
                        #[trigger] now[p],
                        r[j + 1],
                    ) by {
                        assert(child_le(r[j], r[j + 1]));
                        if p < done.len() {
                            assert(child_le(done[p], c));
                            lemma_child_le_total_preorder(done[p], c, r[j + 1]);
                        }
                    }
                    assert forall|p: int|
                        0 <= p < out@.len() && rest_left@.len() > 0 implies child_le(
                        #[trigger] now[p],
                        l[i],
                    ) by {
                        if p < done.len() {
                            assert(child_le(done[p], l[i]));
                        }
                    }
                    assert forall|key: SortKey| #[trigger]
                        with_key(now, key) == with_key(l.take(i), key) + with_key(
                            r.take(j + 1),
                            key,
                        ) by {
                        assert(with_key(done, key) == with_key(l.take(i), key) + with_key(
                            r.take(j),
                            key,
                        ));
                        lemma_merge_takes_right(done, l, r, i, j, key);
                    }
                }
            } else {
                let ghost c = l[i];
                assert(child_view(rest_left@[rest_left@.len() - 1]) == c);
                match rest_left.pop() {
                    Some(entry) => {
                        out.push(entry);
                    },
                    None => {},
                }
                proof {
                    assert(children_view(out@) =~= done.push(c));
                    let now = children_view(out@);
                    assert forall|p: int, q: int| 0 <= p <= q < now.len() implies child_le(
                        now[p],
                        now[q],
                    ) by {
                        lemma_child_le_total_preorder(c, c, c);
                        if q < done.len() {
                            assert(child_le(done[p], done[q]));
                        } else if p < done.len() {
                            assert(child_le(done[p], c));
                        }
                    }
                    assert forall|p: int|
                        0 <= p < out@.len() && rest_left@.len() > 0 implies child_le(
                        #[trigger] now[p],
                        l[i + 1],
                    ) by {
                        assert(child_le(l[i], l[i + 1]));
                        if p < done.len() {
                            assert(child_le(done[p], c));
                            lemma_child_le_total_preorder(done[p], c, l[i + 1]);
                        }
                    }
                    assert forall|p: int|
                        0 <= p < out@.len() && rest_right@.len() > 0 implies child_le(
                        #[trigger] now[p],
                        r[j],
                    ) by {
                        if p < done.len() {
                            assert(child_le(done[p], r[j]));
                        }
                    }
                    assert forall|k: int| 0 <= k < j && rest_left@.len() > 0 implies key_lt(
                        sort_key(#[trigger] r[k]),
                        sort_key(l[i + 1]),
                    ) by {
                        assert(child_le(l[i], l[i + 1]));
                        lemma_key_lt_then_le(sort_key(r[k]), sort_key(l[i]), sort_key(l[i + 1]));
                    }
                    assert forall|key: SortKey| #[trigger]
                        with_key(now, key) == with_key(l.take(i + 1), key) + with_key(
                            r.take(j),
                            key,
                        ) by {
                        assert(with_key(done, key) == with_key(l.take(i), key) + with_key(
                            r.take(j),
                            key,
                        ));
                        lemma_merge_takes_left(done, l, r, i, j, key);
                    }
                }
            }
        }
        assert(l.take(l.len() as int) =~= l);
        assert(r.take(r.len() as int) =~= r);
        out
    }

    /// Tells whether `a` has to stand before `b`.
    fn sorts_before(a: &(String, Writer, bool), b: &(String, Writer, bool)) -> (before: bool)
        ensures
            before == key_lt(sort_key(child_view(*a)), sort_key(child_view(*b))),
    {
        match Self::sort_function(a, b) {
            Ordering::Less => true,
            _ => false,
        }
    }

    /// Compares two entries of a group by their keys: see [`sort_key`].
    pub fn sort_function(a: &(String, Writer, bool), b: &(String, Writer, bool)) -> (o: Ordering)
        ensures
            (o == Ordering::Less) == key_lt(sort_key(child_view(*a)), sort_key(child_view(*b))),
            (o == Ordering::Equal) == (sort_key(child_view(*a)) == sort_key(child_view(*b))),
            (o == Ordering::Greater) == key_lt(sort_key(child_view(*b)), sort_key(child_view(*a))),
    {
        let ghost ka = sort_key(child_view(*a));
        let ghost kb = sort_key(child_view(*b));
        proof {
            lemma_key_lt_irreflexive(ka);
            lemma_key_lt_total(ka, kb);
            if key_lt(ka, kb) {
                lemma_key_lt_asymmetric(ka, kb);
            }
            if key_lt(kb, ka) {
                lemma_key_lt_asymmetric(kb, ka);
            }
        }
        let leading_a = has_leading_tag(a.0.as_str());
        let leading_b = has_leading_tag(b.0.as_str());
        if leading_a && leading_b {
            Ordering::Equal
        } else if leading_a {
            Ordering::Less
        } else if leading_b {
            Ordering::Greater
        } else {
            match (&a.1.file, &b.1.file) {
                (Some(file_a), Some(file_b)) => compare_text(file_a.as_str(), file_b.as_str()),
                (Some(_), None) => Ordering::Less,
                (None, Some(_)) => Ordering::Greater,
                (None, None) => {
                    if a.1.line != 0 && b.1.line != 0 {
                        if a.1.line < b.1.line {
                            Ordering::Less
                        } else if a.1.line > b.1.line {
                            Ordering::Greater
                        } else {
                            Ordering::Equal
                        }
                    } else if a.1.line != 0 {
                        Ordering::Less
                    } else if b.1.line != 0 {
                        Ordering::Greater
                    } else {
                        compare_text(a.0.as_str(), b.0.as_str())
                    }
                },
            }
        }
    }
}

impl<'a> TaggedGroupHandle<'a> {
    /// A handle is well formed when it points at a group of its element.
    pub open spec fn wf(&self) -> bool {
        self.owner@.has_group_at(self.tagged_group_idx as int)
    }

    /// Adds a child at the end of the group.
    pub fn add_tagged_item(&mut self, tag: &str, item: Writer, is_block: bool)
        requires
            old(self).wf(),
        ensures
            final(self).wf(),
            final(self).tagged_group_idx == old(self).tagged_group_idx,
            final(self).owner@ == old(self).owner@.with_child(
                old(self).tagged_group_idx as int,
                Child { tag: tag@, node: item@, is_block },
            ),
            *final(final(self).owner) == *final(old(self).owner),
    {
        let ghost before = self.owner@;
        let ghost at = self.tagged_group_idx as int;
        let ghost child = Child { tag: tag@, node: item@, is_block };
        if let WriterItem::TaggedGroup(tagmap) = &mut self.owner.items[self.tagged_group_idx] {
            let ghost entries = tagmap@;
            tagmap.push((tag.to_owned(), item, is_block));
            assert(children_view(tagmap@) =~= children_view(entries).push(child));
        }
        assert(self.owner@.items =~= before.items.update(
            at,
            Item::Group { children: before.items[at]->children.push(child) },
        ));
    }
}

} // verus!
