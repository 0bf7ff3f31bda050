use a2l_writer::writer::{TaggedGroupHandle, Writer};
use std::cmp::Ordering;

fn leaf(file: Option<&str>, line: u32, texts: &[(&str, u32)]) -> Writer {
    let mut w = Writer::new(&file.map(|f| f.to_string()), line);
    for (text, position) in texts {
        w.add_fixed_item(text.to_string(), *position);
    }
    w
}

fn entry(tag: &str, file: Option<&str>, line: u32) -> (String, Writer, bool) {
    (tag.to_string(), leaf(file, line, &[]), false)
}

#[test]
fn empty_tree_renders_nothing() {
    let root = Writer::new(&None, 0);
    assert_eq!(root.finish(), "");
    let mut root = Writer::new(&None, 7);
    root.add_break_if_new_item(0);
    let _ = root.add_tagged_group(0);
    assert_eq!(root.finish(), "");
}

#[test]
fn static_items_on_one_line_are_joined_by_spaces() {
    let root = leaf(None, 3, &[("a", 3), ("b", 3), ("c", 3)]);
    assert_eq!(root.finish(), "a b c");
}

#[test]
fn static_items_follow_their_lines() {
    let root = leaf(None, 3, &[("a", 3), ("b", 4), ("c", 9), ("d", 9)]);
    assert_eq!(root.finish(), "a\nb\nc d");
}

#[test]
fn internal_rendering_keeps_the_leading_separator() {
    let root = leaf(None, 3, &[("a", 3), ("b", 4)]);
    assert_eq!(root.finish_internal(0), (4, " a\nb".to_string()));
    let root = leaf(None, 3, &[("a", 4), ("b", 9)]);
    assert_eq!(root.finish_internal(2), (9, "\n    a\n    b".to_string()));
    let root = leaf(None, 3, &[]);
    assert_eq!(root.finish_internal(2), (3, String::new()));
}

#[test]
fn synthesized_items_each_start_a_line() {
    let root = leaf(None, 0, &[("a", 0), ("b", 0)]);
    assert_eq!(root.finish(), "a\nb");
}

#[test]
fn break_separates_keywords_on_the_pseudo_line() {
    let mut root = Writer::new(&None, u32::MAX);
    root.add_fixed_item("A".to_string(), u32::MAX);
    root.add_fixed_item("B".to_string(), u32::MAX);
    root.add_break_if_new_item(u32::MAX);
    root.add_fixed_item("C".to_string(), u32::MAX);
    root.add_fixed_item("D".to_string(), u32::MAX);
    assert_eq!(root.finish(), "A B\nC D");
}

#[test]
fn break_is_only_added_for_new_items() {
    let mut root = Writer::new(&None, 5);
    root.add_fixed_item("A".to_string(), 5);
    root.add_break_if_new_item(5);
    root.add_fixed_item("B".to_string(), 5);
    assert_eq!(root.finish(), "A B");
}

#[test]
fn break_does_not_split_items_with_ordinary_lines() {
    let mut root = Writer::new(&None, 5);
    root.add_fixed_item("A".to_string(), 5);
    root.add_break_if_new_item(0);
    root.add_fixed_item("B".to_string(), 5);
    assert_eq!(root.finish(), "A B");
}

#[test]
fn single_block_on_the_current_line_keeps_the_indent() {
    let mut root = Writer::new(&None, 1);
    let mut group = root.add_tagged_group(1);
    group.add_tagged_item("PROJECT", leaf(None, 1, &[("name", 1), ("\"desc\"", 1)]), true);
    assert_eq!(root.finish(), "/begin PROJECT name \"desc\"\n/end PROJECT");
}

#[test]
fn single_child_is_not_indented_further() {
    let mut root = Writer::new(&None, 1);
    let mut group = root.add_tagged_group(1);
    group.add_tagged_item("A", leaf(None, 1, &[("x", 2)]), true);
    assert_eq!(root.finish(), "/begin A\nx\n/end A");
}

#[test]
fn two_children_are_indented_by_one_level() {
    let mut root = Writer::new(&None, 1);
    let mut group = root.add_tagged_group(2);
    group.add_tagged_item("A", leaf(None, 1, &[("x", 2)]), true);
    group.add_tagged_item("B", leaf(None, 1, &[("y", 2)]), true);
    assert_eq!(root.finish(), "/begin A\n  x\n/end A\n\n/begin B\n  y\n/end B");
}

#[test]
fn single_child_on_another_line_is_indented() {
    let mut root = Writer::new(&None, 1);
    let mut group = root.add_tagged_group(1);
    group.add_tagged_item("A", leaf(None, 2, &[("x", 3)]), true);
    assert_eq!(root.finish(), "/begin A\n  x\n/end A");
}

#[test]
fn single_child_of_a_later_group_is_indented() {
    let mut root = Writer::new(&None, 1);
    root.add_fixed_item("head".to_string(), 1);
    let mut group = root.add_tagged_group(1);
    group.add_tagged_item("A", leaf(None, 1, &[("x", 2)]), true);
    assert_eq!(root.finish(), "head /begin A\n  x\n/end A");
}

#[test]
fn inline_child_is_tag_and_body() {
    let mut root = Writer::new(&None, 1);
    let mut group = root.add_tagged_group(2);
    group.add_tagged_item("ECU", leaf(None, 1, &[("\"x\"", 1)]), false);
    group.add_tagged_item("VERSION", leaf(None, 2, &[("\"1.0\"", 2)]), false);
    assert_eq!(root.finish(), "ECU \"x\"\nVERSION \"1.0\"");
}

#[test]
fn block_ends_one_line_after_its_content() {
    let mut root = Writer::new(&None, 1);
    let mut group = root.add_tagged_group(2);
    group.add_tagged_item("A", leaf(None, 1, &[("x", 2)]), true);
    group.add_tagged_item("B", leaf(None, 4, &[("y", 4)]), true);
    assert_eq!(root.finish(), "/begin A\n  x\n/end A\n/begin B y\n/end B");
}

#[test]
fn nested_blocks() {
    let mut inner = Writer::new(&None, 2);
    inner.add_fixed_item("name".to_string(), 2);
    let mut inner_group = inner.add_tagged_group(2);
    inner_group.add_tagged_item("LEAF", leaf(None, 3, &[("1", 3)]), true);
    inner_group.add_tagged_item("KEY", leaf(None, 5, &[("2", 5)]), false);
    let mut root = Writer::new(&None, 1);
    let mut group = root.add_tagged_group(2);
    group.add_tagged_item("FIRST", leaf(None, 1, &[]), false);
    group.add_tagged_item("OUTER", inner, true);
    assert_eq!(
        root.finish(),
        "FIRST\n/begin OUTER name\n  /begin LEAF 1\n  /end LEAF\n  KEY 2\n/end OUTER"
    );
}

#[test]
fn version_tag_is_written_first() {
    let mut root = Writer::new(&None, 0);
    let mut group = root.add_tagged_group(2);
    group.add_tagged_item("X", leaf(None, 2, &[("1", 2)]), false);
    group.add_tagged_item("ASAP2_VERSION", leaf(None, 9, &[("1", 9), ("71", 9)]), false);
    assert_eq!(root.finish(), "ASAP2_VERSION 1 71\nX 1");
}

#[test]
fn version_tag_goes_before_included_and_synthesized_children() {
    let mut root = Writer::new(&None, 1);
    let mut group = root.add_tagged_group(4);
    group.add_tagged_item("NEW", leaf(None, 0, &[("n", 0)]), false);
    group.add_tagged_item("INC", leaf(Some("x.inc"), 4, &[("i", 4)]), true);
    group.add_tagged_item("OLD", leaf(None, 3, &[("o", 3)]), false);
    group.add_tagged_item("ASAP2_VERSION", leaf(None, 1, &[("1", 1), ("71", 1)]), false);
    assert_eq!(
        root.finish(),
        "ASAP2_VERSION 1 71\n/include \"x.inc\"\nOLD o\nNEW\n  n"
    );
}

#[test]
fn schema_tag_is_written_first_too() {
    let mut root = Writer::new(&None, 1);
    let mut group = root.add_tagged_group(2);
    group.add_tagged_item("IF_DATA", leaf(None, 2, &[("x", 2)]), true);
    group.add_tagged_item("A2ML", leaf(None, 5, &[("y", 5)]), true);
    assert_eq!(root.finish(), "\n/begin A2ML y\n/end A2ML\n\n/begin IF_DATA x\n/end IF_DATA");
}

#[test]
fn leading_tags_keep_their_order_among_themselves() {
    let mut root = Writer::new(&None, 1);
    let mut group = root.add_tagged_group(3);
    group.add_tagged_item("Z", leaf(None, 1, &[]), false);
    group.add_tagged_item("A2ML", leaf(None, 1, &[]), false);
    group.add_tagged_item("ASAP2_VERSION", leaf(None, 1, &[]), false);
    assert_eq!(root.finish(), "A2ML ASAP2_VERSION Z");
}

#[test]
fn includes_are_written_once_per_file_in_the_order_of_the_names() {
    let mut root = Writer::new(&None, 0);
    let mut group = root.add_tagged_group(4);
    group.add_tagged_item("X", leaf(Some("b.inc"), 5, &[("x", 5)]), true);
    group.add_tagged_item("Y", leaf(Some("a.inc"), 3, &[("y", 3)]), true);
    group.add_tagged_item("Z", leaf(Some("b.inc"), 7, &[("z", 7)]), false);
    group.add_tagged_item("W", leaf(Some("a.inc"), 9, &[("w", 9)]), true);
    let text = root.finish();
    assert_eq!(text, "/include \"a.inc\"\n/include \"b.inc\"");
    assert_eq!(text.matches("/include").count(), 2);
}

#[test]
fn includes_are_counted_for_each_group() {
    let mut root = Writer::new(&None, 0);
    let mut first = root.add_tagged_group(1);
    first.add_tagged_item("X", leaf(Some("a.inc"), 5, &[]), true);
    let mut second = root.add_tagged_group(1);
    second.add_tagged_item("Y", leaf(Some("a.inc"), 6, &[]), true);
    assert_eq!(root.finish(), "/include \"a.inc\"\n/include \"a.inc\"");
}

#[test]
fn included_leading_child_is_written_as_include() {
    let mut root = Writer::new(&None, 1);
    let mut group = root.add_tagged_group(3);
    group.add_tagged_item("X", leaf(Some("a.inc"), 5, &[]), true);
    group.add_tagged_item("Y", leaf(Some("b.inc"), 5, &[]), true);
    group.add_tagged_item("A2ML", leaf(Some("b.inc"), 5, &[]), true);
    assert_eq!(root.finish(), "/include \"b.inc\"\n/include \"a.inc\"");
}

#[test]
fn child_on_the_line_after_an_include_follows_on_the_same_line() {
    let mut root = Writer::new(&None, 1);
    let mut group = root.add_tagged_group(2);
    group.add_tagged_item("X", leaf(Some("a.inc"), 5, &[]), true);
    group.add_tagged_item("K", leaf(None, 2, &[]), false);
    assert_eq!(root.finish(), "/include \"a.inc\" K");
}

#[test]
fn single_child_chain_is_never_indented() {
    let mut node = leaf(None, 0, &[("x", 0)]);
    for _ in 0..5 {
        let mut outer = Writer::new(&None, 0);
        let mut group = outer.add_tagged_group(1);
        group.add_tagged_item("N", node, false);
        node = outer;
    }
    assert_eq!(node.finish(), "N\nN\nN\nN\nN\nx");
}

#[test]
fn includes_are_indented_like_their_group() {
    let mut inner = Writer::new(&None, 1);
    let mut inner_group = inner.add_tagged_group(2);
    inner_group.add_tagged_item("X", leaf(Some("a.inc"), 5, &[]), true);
    inner_group.add_tagged_item("K", leaf(None, 7, &[]), false);
    let mut root = Writer::new(&None, 1);
    let mut group = root.add_tagged_group(2);
    group.add_tagged_item("M", inner, true);
    group.add_tagged_item("N", leaf(None, 9, &[]), false);
    assert_eq!(root.finish(), "/begin M\n  /include \"a.inc\"\n  K\n/end M\nN");
}

#[test]
fn children_with_lines_go_before_children_without() {
    let mut root = Writer::new(&None, 1);
    let mut group = root.add_tagged_group(4);
    group.add_tagged_item("ZETA", leaf(None, 0, &[]), false);
    group.add_tagged_item("B", leaf(None, 7, &[]), false);
    group.add_tagged_item("ALPHA", leaf(None, 0, &[]), false);
    group.add_tagged_item("A", leaf(None, 2, &[]), false);
    assert_eq!(root.finish(), "A\nB\nALPHA\nZETA");
}

#[test]
fn children_on_one_line_keep_the_order_in_which_they_were_added() {
    let mut root = Writer::new(&None, 4);
    let mut group = root.add_tagged_group(3);
    group.add_tagged_item("B", leaf(None, 4, &[]), false);
    group.add_tagged_item("A", leaf(None, 4, &[]), false);
    group.add_tagged_item("C", leaf(None, 4, &[]), false);
    assert_eq!(root.finish(), "B A C");
}

#[test]
fn synthesized_block_after_keyword_child_starts_on_the_next_line() {
    let mut keyword = Writer::new(&None, u32::MAX);
    keyword.add_fixed_item("1".to_string(), u32::MAX);
    let mut block = Writer::new(&None, 0);
    block.add_fixed_item("x".to_string(), 0);
    let mut root = Writer::new(&None, 1);
    let mut group = root.add_tagged_group(2);
    group.add_tagged_item("BLOCK", block, true);
    group.add_tagged_item("KEYWORD", keyword, false);
    assert_eq!(root.finish(), "KEYWORD 1\n/begin BLOCK\n  x\n/end BLOCK");
}

#[test]
fn cursor_after_a_block_of_keywords_is_line_zero() {
    let mut block = Writer::new(&None, 0);
    block.add_fixed_item("k".to_string(), u32::MAX);
    let mut group = Vec::new();
    group.push(("B".to_string(), block, true));
    let (line, text) = Writer::finish_group(0, group, 1, false);
    assert_eq!(line, 0);
    assert_eq!(text, "\n  /begin B\n    k\n  /end B");
}

#[test]
fn group_rendering_returns_the_trailing_line() {
    let mut group = Vec::new();
    group.push(("A".to_string(), leaf(None, 4, &[("x", 6)]), true));
    group.push(("B".to_string(), leaf(Some("i.inc"), 1, &[]), true));
    group.push(("C".to_string(), leaf(None, 9, &[("y", 9)]), false));
    let (line, text) = Writer::finish_group(4, group, 0, true);
    assert_eq!(line, 9);
    assert_eq!(text, " /begin A\n  x\n/end A\n/include \"i.inc\"\nC y");
    let (line, text) = Writer::finish_group(12, Vec::new(), 3, true);
    assert_eq!(line, 12);
    assert_eq!(text, "");
}

#[test]
fn group_rendering_takes_the_children_as_they_come() {
    let mut group = Vec::new();
    group.push(("B".to_string(), leaf(None, 9, &[]), false));
    group.push(("A".to_string(), leaf(None, 2, &[]), false));
    let (line, text) = Writer::finish_group(9, group, 0, false);
    assert_eq!(line, 2);
    assert_eq!(text, " B\nA");
}

#[test]
fn sorting_a_group_is_stable() {
    let group = vec![
        entry("n2", None, 0),
        entry("l5b", None, 5),
        entry("inc_b", Some("b"), 1),
        entry("A2ML", None, 3),
        entry("l5a", None, 5),
        entry("n1", None, 0),
        entry("inc_a", Some("a"), 9),
        entry("n2", None, 0),
        entry("ASAP2_VERSION", Some("z"), 0),
        entry("l1", None, 1),
        entry("inc_b2", Some("b"), 0),
    ];
    let group = Writer::sort_group(group);
    let tags: Vec<&str> = group.iter().map(|e| e.0.as_str()).collect();
    assert_eq!(
        tags,
        vec![
            "A2ML",
            "ASAP2_VERSION",
            "inc_a",
            "inc_b",
            "inc_b2",
            "l1",
            "l5b",
            "l5a",
            "n1",
            "n2",
            "n2"
        ]
    );
}

#[test]
fn sorting_handles_small_and_reversed_groups() {
    let group: Vec<(String, Writer, bool)> = Vec::new();
    let group = Writer::sort_group(group);
    assert!(group.is_empty());
    let group = Writer::sort_group(vec![entry("only", None, 3)]);
    assert_eq!(group.len(), 1);
    assert_eq!(group[0].0, "only");
    let group = Writer::sort_group(vec![entry("b", None, 0), entry("a", None, 0)]);
    assert_eq!(group[0].0, "a");
    assert_eq!(group[1].0, "b");
    let group = Writer::sort_group(vec![entry("x", None, 4), entry("y", None, 4)]);
    assert_eq!(group[0].0, "x");
    assert_eq!(group[1].0, "y");
    let mut group = Vec::new();
    for line in (1..=20u32).rev() {
        group.push(entry("t", None, line));
    }
    let group = Writer::sort_group(group);
    let lines: Vec<String> =
        group.into_iter().map(|e| e.1.finish_internal(0)).map(|r| r.0.to_string()).collect();
    let expected: Vec<String> = (1..=20u32).map(|l| l.to_string()).collect();
    assert_eq!(lines, expected);
}

#[test]
fn sorting_a_large_group_agrees_with_a_stable_sort_by_key() {
    let files = ["", "a.inc", "b.inc", "c/d.inc"];
    let tags = ["ASAP2_VERSION", "A2ML", "M", "C", "AX", "M", "Z"];
    let mut seed: u32 = 12345;
    let mut group = Vec::new();
    let mut keys: Vec<((u8, String, u32, String), usize)> = Vec::new();
    for n in 0..1500usize {
        seed = seed.wrapping_mul(1664525).wrapping_add(1013904223);
        let tag = tags[(seed >> 24) as usize % tags.len()];
        let file = files[(seed >> 16) as usize % files.len()];
        let line = if (seed >> 8) % 3 == 0 { 0 } else { (seed >> 4) % 50 };
        let file = if file.is_empty() { None } else { Some(file) };
        let marked = format!("{}#{}", tag, n);
        let (tag_in_group, leading) = if n % 97 == 0 && (tag == "ASAP2_VERSION" || tag == "A2ML")
        {
            (tag.to_string(), true)
        } else {
            (marked, false)
        };
        let key = if leading {
            (0, String::new(), 0, String::new())
        } else if let Some(f) = file {
            (1, f.to_string(), 0, String::new())
        } else if line != 0 {
            (2, String::new(), line, String::new())
        } else {
            (3, String::new(), 0, tag_in_group.clone())
        };
        keys.push((key, n));
        let mut node = leaf(file, line, &[]);
        node.add_fixed_item(n.to_string(), 1);
        group.push((tag_in_group, node, false));
    }
    keys.sort_by(|a, b| a.0.cmp(&b.0));
    let sorted = Writer::sort_group(group);
    assert_eq!(sorted.len(), keys.len());
    for (entry, (_, n)) in sorted.into_iter().zip(keys) {
        let (_, written) = entry.1.finish_internal(0);
        assert_eq!(written.trim(), n.to_string());
    }
}

#[test]
fn comparison_of_entries() {
    let version = entry("ASAP2_VERSION", None, 9);
    let schema = entry("A2ML", Some("s.inc"), 0);
    let inc_a = entry("X", Some("a.inc"), 7);
    let inc_b = entry("X", Some("b.inc"), 1);
    let line_3 = entry("Q", None, 3);
    let line_8 = entry("P", None, 8);
    let new_a = entry("A", None, 0);
    let new_b = entry("B", None, 0);
    assert_eq!(Writer::sort_function(&version, &inc_a), Ordering::Less);
    assert_eq!(Writer::sort_function(&inc_a, &version), Ordering::Greater);
    assert_eq!(Writer::sort_function(&schema, &line_3), Ordering::Less);
    assert_eq!(Writer::sort_function(&new_a, &schema), Ordering::Greater);
    assert_eq!(Writer::sort_function(&version, &schema), Ordering::Equal);
    assert_eq!(Writer::sort_function(&schema, &version), Ordering::Equal);
    assert_eq!(Writer::sort_function(&inc_a, &inc_b), Ordering::Less);
    assert_eq!(Writer::sort_function(&inc_b, &inc_a), Ordering::Greater);
    assert_eq!(Writer::sort_function(&inc_a, &inc_a), Ordering::Equal);
    assert_eq!(Writer::sort_function(&inc_b, &line_3), Ordering::Less);
    assert_eq!(Writer::sort_function(&line_3, &inc_b), Ordering::Greater);
    assert_eq!(Writer::sort_function(&inc_b, &new_a), Ordering::Less);
    assert_eq!(Writer::sort_function(&line_3, &line_8), Ordering::Less);
    assert_eq!(Writer::sort_function(&line_8, &line_3), Ordering::Greater);
    assert_eq!(Writer::sort_function(&line_3, &line_3), Ordering::Equal);
    assert_eq!(Writer::sort_function(&line_8, &new_a), Ordering::Less);
    assert_eq!(Writer::sort_function(&new_a, &line_8), Ordering::Greater);
    assert_eq!(Writer::sort_function(&new_a, &new_b), Ordering::Less);
    assert_eq!(Writer::sort_function(&new_b, &new_a), Ordering::Greater);
    assert_eq!(Writer::sort_function(&new_b, &new_b), Ordering::Equal);
}

#[test]
fn handle_adds_children_to_its_own_group() {
    let mut root = Writer::new(&None, 1);
    {
        let mut first = root.add_tagged_group(1);
        first.add_tagged_item("A", leaf(None, 1, &[]), false);
    }
    root.add_fixed_item("mid".to_string(), 1);
    {
        let mut second = root.add_tagged_group(1);
        second.add_tagged_item("B", leaf(None, 1, &[]), false);
        second.add_tagged_item("C", leaf(None, 1, &[]), false);
    }
    assert_eq!(root.finish(), "A mid B C");
}

#[test]
fn handle_made_by_hand_reaches_the_group_it_names() {
    let mut root = Writer::new(&None, 1);
    let _ = root.add_tagged_group(0);
    let _ = root.add_tagged_group(0);
    {
        let mut handle = TaggedGroupHandle { owner: &mut root, tagged_group_idx: 1 };
        handle.add_tagged_item("B", leaf(None, 1, &[]), false);
    }
    {
        let mut handle = TaggedGroupHandle { owner: &mut root, tagged_group_idx: 0 };
        handle.add_tagged_item("A", leaf(None, 1, &[]), false);
    }
    assert_eq!(root.finish(), "A B");
}

#[test]
fn block_markers_carry_the_same_tag() {
    let tags = ["MEASUREMENT", "X", "a b", ""];
    for tag in tags {
        let mut root = Writer::new(&None, 1);
        let mut group = root.add_tagged_group(1);
        group.add_tagged_item(tag, leaf(None, 1, &[("v", 1)]), true);
        assert_eq!(root.finish(), format!("/begin {} v\n/end {}", tag, tag));
    }
}

#[test]
fn rendering_twice_gives_the_same_text() {
    fn build() -> Writer {
        let mut root = Writer::new(&None, 1);
        root.add_fixed_item("head".to_string(), 1);
        let mut group = root.add_tagged_group(3);
        group.add_tagged_item("B", leaf(None, 0, &[("b", 0)]), true);
        group.add_tagged_item("I", leaf(Some("i.inc"), 0, &[]), true);
        group.add_tagged_item("A", leaf(None, 5, &[("a", 6)]), false);
        root
    }
    let first = build().finish();
    let second = build().finish();
    assert_eq!(first, second);
    assert_eq!(first, "head\n/include \"i.inc\"\nA\n  a\n\n/begin B\n  b\n/end B");
}

#[test]
fn finished_text_starts_with_the_first_token() {
    let root = leaf(None, 1, &[("first", 1), ("second", 2)]);
    assert!(!root.finish().starts_with(char::is_whitespace));
    let root = leaf(None, 0, &[("first", 7)]);
    assert!(!root.finish().starts_with(char::is_whitespace));
    let mut root = Writer::new(&None, 1);
    let mut group = root.add_tagged_group(1);
    group.add_tagged_item("T", leaf(None, 2, &[]), true);
    assert_eq!(root.finish(), "/begin T\n/end T");
}

#[test]
fn finish_removes_one_character_only() {
    let mut root = Writer::new(&None, 1);
    let mut group = root.add_tagged_group(1);
    group.add_tagged_item("T", leaf(None, 5, &[]), true);
    assert_eq!(root.finish(), "\n/begin T\n/end T");
    let root = leaf(None, 1, &[("", 1), ("x", 1)]);
    assert_eq!(root.finish(), " x");
}

#[test]
fn deep_nesting_stops_indenting_at_the_widest_indentation() {
    let mut node = leaf(None, 0, &[("x", 0)]);
    for _ in 0..70 {
        let mut outer = Writer::new(&None, 0);
        let mut group = outer.add_tagged_group(1);
        group.add_tagged_item("N", node, false);
        group.add_tagged_item("Z", leaf(None, 0, &[]), false);
        node = outer;
    }
    let text = node.finish();
    let widest = text.lines().map(|l| l.len() - l.trim_start().len()).max();
    assert_eq!(widest, Some(120));
    assert!(text.contains(&format!("\n{}x\n", " ".repeat(120))));
    assert!(text.contains(&format!("\n{}N\n", " ".repeat(118))));
}

#[test]
fn room_for_children_is_only_a_hint() {
    let mut root = Writer::new(&None, 1);
    let mut group = root.add_tagged_group(usize::MAX);
    group.add_tagged_item("A", leaf(None, 1, &[]), false);
    let mut empty = root.add_tagged_group(0);
    empty.add_tagged_item("B", leaf(None, 1, &[]), false);
    assert_eq!(root.finish(), "A B");
}

#[test]
fn content_of_an_included_child_is_not_written() {
    let mut root = Writer::new(&None, 1);
    let mut group = root.add_tagged_group(1);
    group.add_tagged_item("X", leaf(Some("sub/a.inc"), 5, &[("hidden", 5)]), true);
    let (line, text) = root.finish_internal(3);
    assert_eq!(line, 2);
    assert_eq!(text, "\n      /include \"sub/a.inc\"");
}
