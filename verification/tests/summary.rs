use backlog_mdbook::api::PageInfo;
use backlog_mdbook::summary::{build_forest, build_summary, build_tree, render, render_node, Node};

fn page(id: u32, name: &str) -> PageInfo {
    PageInfo { id, name: name.to_string() }
}

#[test]
fn nested_names_build_a_chain() {
    let forest = build_forest(&vec![page(1, "a"), page(2, "a/b"), page(3, "a/b/c")]);
    assert_eq!(forest.len(), 1);
    let a = &forest[0];
    assert_eq!(a.name, "a");
    assert_eq!(a.id, Some(1));
    assert_eq!(a.children.len(), 1);
    let b = &a.children[0];
    assert_eq!(b.name, "b");
    assert_eq!(b.id, Some(2));
    assert_eq!(b.children.len(), 1);
    let c = &b.children[0];
    assert_eq!(c.name, "c");
    assert_eq!(c.id, Some(3));
    assert!(c.children.is_empty());
}

#[test]
fn nested_names_indent_by_level() {
    let text = build_summary(&vec![page(1, "a"), page(2, "a/b"), page(3, "a/b/c")]);
    assert_eq!(text, "# SUMMARY\n\n- [a](1.md)\n  - [b](2.md)\n    - [c](3.md)\n");
}

#[test]
fn same_name_keeps_the_later_id() {
    let forest = build_forest(&vec![page(7, "home"), page(9, "home")]);
    assert_eq!(forest.len(), 1);
    assert_eq!(forest[0].name, "home");
    assert_eq!(forest[0].id, Some(9));
    assert!(forest[0].children.is_empty());
}

#[test]
fn page_that_is_also_a_folder() {
    let forest = build_forest(&vec![page(1, "x"), page(2, "x/y")]);
    assert_eq!(forest.len(), 1);
    assert_eq!(forest[0].name, "x");
    assert_eq!(forest[0].id, Some(1));
    assert_eq!(forest[0].children.len(), 1);
    assert_eq!(forest[0].children[0].name, "y");
    assert_eq!(forest[0].children[0].id, Some(2));
}

#[test]
fn folder_claimed_by_a_later_page() {
    let forest = build_forest(&vec![page(2, "x/y"), page(1, "x")]);
    assert_eq!(forest.len(), 1);
    assert_eq!(forest[0].id, Some(1));
    assert_eq!(forest[0].children.len(), 1);
    assert_eq!(forest[0].children[0].id, Some(2));
}

#[test]
fn folder_without_page_has_empty_link() {
    let text = build_summary(&vec![page(5, "guide/setup")]);
    assert_eq!(text, "# SUMMARY\n\n- [guide]()\n  - [setup](5.md)\n");
}

#[test]
fn siblings_keep_first_occurrence_order() {
    let text = build_summary(&vec![page(1, "zeta"), page(2, "alpha"), page(3, "zeta/one"), page(4, "mid")]);
    assert_eq!(
        text,
        "# SUMMARY\n\n- [zeta](1.md)\n  - [one](3.md)\n- [alpha](2.md)\n- [mid](4.md)\n"
    );
}

#[test]
fn empty_page_list_gives_only_the_heading() {
    assert_eq!(build_summary(&Vec::new()), "# SUMMARY\n\n");
    assert!(build_forest(&Vec::new()).is_empty());
}

#[test]
fn empty_components_are_nodes_with_empty_names() {
    let forest = build_forest(&vec![page(1, ""), page(2, "a/"), page(3, "/b")]);
    assert_eq!(forest.len(), 2);
    assert_eq!(forest[0].name, "");
    assert_eq!(forest[0].id, Some(1));
    assert_eq!(forest[0].children.len(), 1);
    assert_eq!(forest[0].children[0].name, "b");
    assert_eq!(forest[0].children[0].id, Some(3));
    assert_eq!(forest[1].name, "a");
    assert_eq!(forest[1].id, None);
    assert_eq!(forest[1].children[0].name, "");
    assert_eq!(forest[1].children[0].id, Some(2));
}

#[test]
fn build_tree_ignores_an_empty_path() {
    let mut tree: Vec<Node> = Vec::new();
    build_tree(&mut tree, &page(1, "a"), &[]);
    assert!(tree.is_empty());
}

#[test]
fn build_tree_places_one_page() {
    let mut tree: Vec<Node> = Vec::new();
    build_tree(&mut tree, &page(4, "ignored"), &["docs", "intro"]);
    build_tree(&mut tree, &page(5, "ignored"), &["docs", "usage"]);
    assert_eq!(tree.len(), 1);
    assert_eq!(tree[0].name, "docs");
    assert_eq!(tree[0].id, None);
    assert_eq!(tree[0].children.len(), 2);
    assert_eq!(tree[0].children[0].name, "intro");
    assert_eq!(tree[0].children[0].id, Some(4));
    assert_eq!(tree[0].children[1].name, "usage");
    assert_eq!(tree[0].children[1].id, Some(5));
}

#[test]
fn render_node_indents_two_spaces_per_level() {
    let node = Node {
        id: Some(12),
        name: "top".to_string(),
        children: vec![Node { id: None, name: "sub".to_string(), children: Vec::new() }],
    };
    assert_eq!(render_node(&node, 0), "- [top](12.md)\n  - [sub]()\n");
    assert_eq!(render_node(&node, 2), "    - [top](12.md)\n      - [sub]()\n");
}

#[test]
fn render_lists_the_forest_under_the_heading() {
    let tree = vec![
        Node { id: Some(4294967295), name: "last".to_string(), children: Vec::new() },
        Node { id: Some(0), name: "zero".to_string(), children: Vec::new() },
    ];
    assert_eq!(render(&tree), "# SUMMARY\n\n- [last](4294967295.md)\n- [zero](0.md)\n");
}

#[test]
fn every_page_id_is_linked_once() {
    let pages = vec![page(10, "a"), page(20, "a/b"), page(30, "c/d/e"), page(40, "c/d"), page(50, "f")];
    let text = build_summary(&pages);
    for p in &pages {
        let link = format!("]({}.md)\n", p.id);
        assert_eq!(text.matches(link.as_str()).count(), 1);
    }
    assert_eq!(text.matches(".md)\n").count(), pages.len());
}

#[test]
fn summary_is_the_same_on_every_run() {
    let pages = vec![page(3, "b/c"), page(1, "a"), page(2, "b")];
    assert_eq!(build_summary(&pages), build_summary(&pages));
    assert_eq!(render(&build_forest(&pages)), build_summary(&pages));
}

fn assert_unique_names(forest: &[Node]) {
    for (i, node) in forest.iter().enumerate() {
        for other in &forest[i + 1..] {
            assert_ne!(node.name, other.name);
        }
        assert_unique_names(&node.children);
    }
}

#[test]
fn sibling_names_are_never_repeated() {
    let pages = vec![
        page(1, "a/b"),
        page(2, "a/c"),
        page(3, "a"),
        page(4, "b/a"),
        page(5, "a/b"),
        page(6, "a/b/b"),
        page(7, "b"),
        page(8, "a/c/a"),
    ];
    let forest = build_forest(&pages);
    assert_unique_names(&forest);
    assert_eq!(forest.len(), 2);
    assert_eq!(forest[0].children.len(), 2);
}

#[test]
fn later_pages_keep_earlier_entries_in_place() {
    let mut pages = vec![page(1, "b/x"), page(2, "a"), page(3, "b/y")];
    let before = build_forest(&pages);
    pages.push(page(4, "b"));
    pages.push(page(5, "0"));
    pages.push(page(6, "b/w/z"));
    let after = build_forest(&pages);
    assert_eq!(before.len(), 2);
    assert_eq!(after.len(), 3);
    for (old, new) in before.iter().zip(after.iter()) {
        assert_eq!(old.name, new.name);
        for (old_child, new_child) in old.children.iter().zip(new.children.iter()) {
            assert_eq!(old_child.name, new_child.name);
            assert_eq!(old_child.id, new_child.id);
        }
    }
    assert_eq!(after[0].id, Some(4));
    assert_eq!(after[0].children.len(), 3);
    assert_eq!(after[0].children[2].name, "w");
    assert_eq!(after[2].name, "0");
}

#[test]
fn duplicate_name_drops_the_earlier_id_from_the_summary() {
    let text = build_summary(&vec![page(7, "home"), page(9, "home")]);
    assert_eq!(text, "# SUMMARY\n\n- [home](9.md)\n");
}
