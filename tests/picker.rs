use iced_picker::{visible_rows, PickerItem, Row, Toggle};
use std::collections::HashMap;

fn leaf(id: &'static str) -> PickerItem<&'static str> {
    PickerItem::new(id, id.to_string())
}

fn sample_tree() -> Vec<PickerItem<&'static str>> {
    vec![leaf("A").with_children(vec![leaf("B"), leaf("C")]), leaf("D")]
}

fn ids<'a>(rows: &[Row<'a, &'static str>]) -> Vec<&'static str> {
    rows.iter().map(|r| r.item.id).collect()
}

fn depths(rows: &[Row<'_, &'static str>]) -> Vec<usize> {
    rows.iter().map(|r| r.depth).collect()
}

#[test]
fn expanded_parent_shows_children_in_order() {
    let items = sample_tree();
    let mut expanded = HashMap::new();
    expanded.insert("A", true);
    let rows = visible_rows(&items, &expanded, true);
    assert_eq!(ids(&rows), vec!["A", "B", "C", "D"]);
    assert_eq!(depths(&rows), vec![0, 1, 1, 0]);
    assert_eq!(rows[0].toggle, Toggle::Expanded);
    assert_eq!(rows[0].toggle.glyph(), "\u{25BC}");
    for r in &rows[1..] {
        assert_eq!(r.toggle, Toggle::Placeholder);
        assert!(!r.toggle.is_pressable());
    }
}

#[test]
fn collapsed_parent_hides_children() {
    let items = sample_tree();
    let mut expanded = HashMap::new();
    expanded.insert("A", false);
    let rows = visible_rows(&items, &expanded, true);
    assert_eq!(ids(&rows), vec!["A", "D"]);
    assert_eq!(depths(&rows), vec![0, 0]);
    assert_eq!(rows[0].toggle, Toggle::Collapsed);
    assert_eq!(rows[0].toggle.glyph(), "\u{25B6}");
}

#[test]
fn empty_mapping_hides_children() {
    let items = sample_tree();
    let expanded: HashMap<&'static str, bool> = HashMap::new();
    let rows = visible_rows(&items, &expanded, true);
    assert_eq!(ids(&rows), vec!["A", "D"]);
    assert_eq!(rows[0].toggle, Toggle::Collapsed);
}

#[test]
fn absent_entry_collapses_even_below_expanded_nodes() {
    let items = vec![leaf("R").with_children(vec![
        leaf("S").with_children(vec![leaf("T")]),
        leaf("U"),
    ])];
    let mut expanded = HashMap::new();
    expanded.insert("R", true);
    let rows = visible_rows(&items, &expanded, true);
    assert_eq!(ids(&rows), vec!["R", "S", "U"]);
    assert_eq!(rows[1].toggle, Toggle::Collapsed);
}

#[test]
fn leaf_with_true_entry_renders_alone() {
    let items = vec![leaf("L"), leaf("M")];
    let mut expanded = HashMap::new();
    expanded.insert("L", true);
    let rows = visible_rows(&items, &expanded, true);
    assert_eq!(ids(&rows), vec!["L", "M"]);
    assert_eq!(rows[0].toggle, Toggle::Placeholder);
    assert_eq!(rows[0].toggle.glyph(), "\u{25B6}");
}

#[test]
fn depth_grows_one_level_per_generation() {
    let items = vec![leaf("a").with_children(vec![leaf("b").with_children(vec![leaf("c")])])];
    let mut expanded = HashMap::new();
    expanded.insert("a", true);
    expanded.insert("b", true);
    let rows = visible_rows(&items, &expanded, true);
    assert_eq!(ids(&rows), vec!["a", "b", "c"]);
    assert_eq!(depths(&rows), vec![0, 1, 2]);
}

#[test]
fn unselectable_node_emits_no_select_but_still_toggles() {
    let items = vec![
        leaf("P").with_children(vec![leaf("Q")]).selectable(false),
        leaf("R"),
    ];
    let expanded: HashMap<&'static str, bool> = HashMap::new();
    let rows = visible_rows(&items, &expanded, true);
    assert!(!rows[0].selectable);
    assert!(rows[0].toggle.is_pressable());
    assert!(rows[1].selectable);
    assert!(!rows[1].toggle.is_pressable());
}

#[test]
fn missing_select_callback_makes_every_row_static() {
    let items = sample_tree();
    let mut expanded = HashMap::new();
    expanded.insert("A", true);
    let rows = visible_rows(&items, &expanded, false);
    assert_eq!(rows.len(), 4);
    for r in &rows {
        assert!(!r.selectable);
    }
    assert!(rows[0].toggle.is_pressable());
}

#[test]
fn toggling_changes_only_that_subtree() {
    let items = vec![
        leaf("X").with_children(vec![leaf("Y").with_children(vec![leaf("Z")]), leaf("W")]),
        leaf("V").with_children(vec![leaf("U")]),
    ];
    let mut expanded = HashMap::new();
    expanded.insert("X", true);
    expanded.insert("V", true);
    let before: Vec<(&str, usize)> =
        visible_rows(&items, &expanded, true).iter().map(|r| (r.item.id, r.depth)).collect();
    assert_eq!(before, vec![("X", 0), ("Y", 1), ("W", 1), ("V", 0), ("U", 1)]);
    expanded.insert("Y", true);
    let after: Vec<(&str, usize)> =
        visible_rows(&items, &expanded, true).iter().map(|r| (r.item.id, r.depth)).collect();
    assert_eq!(after, vec![("X", 0), ("Y", 1), ("Z", 2), ("W", 1), ("V", 0), ("U", 1)]);
    expanded.insert("Y", false);
    let again: Vec<(&str, usize)> =
        visible_rows(&items, &expanded, true).iter().map(|r| (r.item.id, r.depth)).collect();
    assert_eq!(again, before);
}

#[test]
fn empty_tree_renders_nothing() {
    let items: Vec<PickerItem<u32>> = Vec::new();
    let expanded: HashMap<u32, bool> = HashMap::new();
    assert!(visible_rows(&items, &expanded, true).is_empty());
}

#[test]
fn builders_set_their_fields() {
    let item: PickerItem<u32> = PickerItem::new(7, "seven".to_string());
    assert_eq!(item.id, 7);
    assert_eq!(item.label, "seven");
    assert!(item.selectable);
    assert!(item.icon.is_none() && item.icon_font.is_none());
    assert!(item.children.is_empty());
    let item = item
        .with_icon('x', iced::Font::MONOSPACE)
        .with_children(vec![PickerItem::new(8, "eight".to_string())])
        .selectable(false);
    assert_eq!(item.icon, Some('x'));
    assert_eq!(item.icon_font, Some(iced::Font::MONOSPACE));
    assert_eq!(item.children.len(), 1);
    assert_eq!(item.children[0].id, 8);
    assert!(!item.selectable);
    assert_eq!(item.label, "seven");
}

#[test]
fn clone_copies_the_whole_tree() {
    let item = leaf("A")
        .with_icon('i', iced::Font::DEFAULT)
        .with_children(vec![leaf("B").with_children(vec![leaf("C")])])
        .selectable(false);
    let copy = item.clone();
    assert_eq!(copy.id, "A");
    assert_eq!(copy.label, "A");
    assert_eq!(copy.icon, Some('i'));
    assert!(!copy.selectable);
    assert_eq!(copy.children[0].id, "B");
    assert_eq!(copy.children[0].children[0].label, "C");
}
