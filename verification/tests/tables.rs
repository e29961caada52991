use crit_core::tables::{convert_match, layout, RawNode};
use std::collections::HashMap;

fn raw(id: usize, kind: &str, depth: u32, start: usize, end: usize) -> RawNode {
    RawNode {
        id,
        kind: kind.to_string(),
        named: true,
        depth,
        start_byte: start,
        end_byte: end,
        start_row: 0,
        start_column: start,
        end_row: 0,
        end_column: end,
    }
}

#[test]
fn layout_links_each_node_to_the_nearest_earlier_node_one_level_up() {
    let src = "f(a, b)";
    let raws = vec![
        raw(10, "program", 0, 0, 7),
        raw(11, "call", 1, 0, 7),
        raw(12, "name", 2, 0, 1),
        raw(13, "args", 2, 1, 7),
        raw(14, "a", 3, 2, 3),
        raw(15, "b", 3, 5, 6),
    ];
    let t = layout(&raws, &src.as_bytes().to_vec()).expect("a pre-order walk");
    let parents: Vec<Option<usize>> = t.nodes.iter().map(|n| n.parent).collect();
    assert_eq!(parents, vec![None, Some(0), Some(1), Some(1), Some(3), Some(3)]);
    assert_eq!(t.nodes[1].children, vec![2, 3]);
    assert_eq!(t.nodes[3].children, vec![4, 5]);
    assert_eq!(t.nodes[0].text, "f(a, b)");
    assert_eq!(t.nodes[3].text, "(a, b)");
    assert_eq!(t.nodes[5].text, "b");
    assert_eq!(t.nodes[4].span.start.line, 1);
    assert_eq!(t.nodes[4].span.start.column, 3);
    assert_eq!(t.nodes[4].span.start_byte, 2);
    assert!(t.is_wf());
}

#[test]
fn layout_refuses_an_empty_walk_or_an_unordered_range() {
    let bytes = b"xy".to_vec();
    assert!(layout(&vec![], &bytes).is_none());
    assert!(layout(&vec![raw(1, "a", 0, 2, 1)], &bytes).is_none());
    assert!(layout(&vec![raw(1, "a", 0, 0, 2), raw(2, "b", 1, 2, 1)], &bytes).is_none());
}

#[test]
fn layout_keeps_every_node_below_the_root_and_at_most_one_level_deeper() {
    let bytes = b"xy".to_vec();
    let t = layout(&vec![raw(1, "a", 3, 0, 2)], &bytes).unwrap();
    assert_eq!(t.nodes[0].parent, None);
    let t = layout(&vec![raw(1, "a", 0, 0, 2), raw(2, "b", 2, 0, 1)], &bytes).unwrap();
    assert_eq!(t.nodes[1].parent, Some(0));
    let t = layout(&vec![raw(1, "a", 0, 0, 2), raw(2, "b", 0, 0, 1), raw(3, "c", 5, 1, 2)], &bytes).unwrap();
    assert_eq!(t.nodes[1].parent, Some(0));
    assert_eq!(t.nodes[2].parent, Some(1));
    assert_eq!(t.nodes[0].children, vec![1]);
}

#[test]
fn a_range_that_is_not_text_gets_no_text() {
    let bytes = "é".as_bytes().to_vec();
    let t = layout(&vec![raw(1, "a", 0, 0, 2), raw(2, "b", 1, 0, 1), raw(3, "c", 1, 1, 9)], &bytes).unwrap();
    assert_eq!(t.nodes[0].text, "é");
    assert_eq!(t.nodes[1].text, "");
    assert_eq!(t.nodes[2].text, "");
}

#[test]
fn captures_name_rows_and_unknown_nodes_are_dropped() {
    let mut rows = HashMap::new();
    rows.insert(100usize, 4usize);
    rows.insert(200usize, 7usize);
    let raw = vec![("call".to_string(), 200), ("arg".to_string(), 999), ("arg".to_string(), 100)];
    let m = convert_match(&raw, &rows);
    let got: Vec<(String, usize)> = m.captures.iter().map(|c| (c.name.clone(), c.node)).collect();
    assert_eq!(got, vec![("call".to_string(), 7), ("arg".to_string(), 4)]);
    assert!(convert_match(&vec![], &rows).captures.is_empty());
}
