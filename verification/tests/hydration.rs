use halyard_tachys::hydration::nth_child_suffix;

#[test]
fn nth_child_suffix_does_not_overflow_at_the_largest_index() {
    assert_eq!(nth_child_suffix(Some(u32::MAX), u32::MAX), None);
    assert_eq!(nth_child_suffix(Some(u32::MAX - 1), u32::MAX).as_deref(), Some(":nth-child(4294967295)"));
}

#[test]
fn nth_child_suffix_is_one_based_and_only_among_siblings() {
    assert_eq!(nth_child_suffix(Some(0), 3).as_deref(), Some(":nth-child(1)"));
    assert_eq!(nth_child_suffix(Some(2), 3).as_deref(), Some(":nth-child(3)"));
    assert_eq!(nth_child_suffix(Some(0), 1), None);
    assert_eq!(nth_child_suffix(None, 3), None);
}

/// Two-digit and larger indices are written in full.
#[test]
fn nth_child_suffix_writes_every_digit() {
    assert_eq!(nth_child_suffix(Some(9), 20).as_deref(), Some(":nth-child(10)"));
    assert_eq!(nth_child_suffix(Some(122), 200).as_deref(), Some(":nth-child(123)"));
}

use halyard_tachys::dom_tree::{DomTree, NodeKind};
use halyard_tachys::hydration::{
    describe_node, dom_path, hydration_failed, report_mismatch, take_hydration_failure, Cursor, Placeholder,
    MISMATCH_ADVICE,
};
use halyard_tachys::view::Position;

fn element(tag: &str, id: Option<&str>) -> NodeKind {
    NodeKind::Element { tag: tag.to_string(), id: id.map(str::to_string), class: None }
}

/// `<html><body><main><div id="app"><!--bo-x--><p>a</p><p>Hello</p></div></main></body></html>`,
/// under a document: returns the tree and the indices of the div, the second `p` and its text.
fn page() -> (DomTree, usize, usize, usize) {
    let mut tree = DomTree::new(NodeKind::Document);
    let html = tree.append_child(0, element("HTML", None)).unwrap();
    let body = tree.append_child(html, element("BODY", None)).unwrap();
    let main = tree.append_child(body, element("MAIN", None)).unwrap();
    let div = tree.append_child(main, element("DIV", Some("app"))).unwrap();
    tree.append_child(div, NodeKind::Comment("bo-x".to_string())).unwrap();
    let first = tree.append_child(div, element("P", None)).unwrap();
    tree.append_child(first, NodeKind::Text("a".to_string())).unwrap();
    let second = tree.append_child(div, element("P", None)).unwrap();
    let text = tree.append_child(second, NodeKind::Text("Hello".to_string())).unwrap();
    (tree, div, second, text)
}

/// The path counts every child node, comments included, and stops at the document.
#[test]
fn dom_path_names_each_node_from_the_document_down() {
    let (tree, div, second, text) = page();
    assert_eq!(dom_path(&tree, Some(div)), "html > body > main > div#app");
    assert_eq!(dom_path(&tree, Some(second)), "html > body > main > div#app > p:nth-child(3)");
    assert_eq!(dom_path(&tree, Some(text)), "html > body > main > div#app > p:nth-child(3) > #text");
    assert_eq!(dom_path(&tree, None), "#document-fragment");
}

/// A node is described by its kind: an element by its tag and attributes, text and
/// comments by a trimmed snippet.
#[test]
fn nodes_are_described_briefly() {
    let (mut tree, div, _, text) = page();
    assert_eq!(describe_node(&tree, Some(div)), "<div id=\"app\">");
    assert_eq!(describe_node(&tree, Some(text)), "#text \"Hello\"");
    assert_eq!(describe_node(&tree, Some(0)), "#document");
    assert_eq!(describe_node(&tree, None), "#document-fragment (detached)");
    let long = tree.append_child(div, NodeKind::Comment(format!("  {}  ", "x".repeat(50)))).unwrap();
    assert_eq!(describe_node(&tree, Some(long)), format!("<!--{}…-->", "x".repeat(40)));
    let classy = tree
        .append_child(div, NodeKind::Element { tag: "SPAN".into(), id: None, class: Some(" a b ".into()) })
        .unwrap();
    assert_eq!(describe_node(&tree, Some(classy)), "<span class=\"a b\">");
}

/// The cursor walks children and siblings, skipping branch markers where branches are
/// marked; once hydration has failed it stops, and it is at the detached node.
#[test]
fn the_cursor_walks_until_hydration_fails() {
    let (mut tree, div, second, text) = page();
    let mut cursor = Cursor::new(div);
    cursor.child(&tree, true);
    let first = cursor.current(&tree).unwrap();
    assert_eq!(describe_node(&tree, Some(first)), "<p>");
    cursor.sibling(&tree, true);
    assert_eq!(cursor.current(&tree), Some(second));
    cursor.child(&tree, false);
    assert_eq!(cursor.current(&tree), Some(text));
    cursor.parent(&tree);
    assert_eq!(cursor.current(&tree), Some(second));

    let mut unmarked = Cursor::new(div);
    unmarked.child(&tree, false);
    assert_eq!(describe_node(&tree, unmarked.current(&tree)), "<!--bo-x-->");

    let report = report_mismatch(&mut tree, "a text node", Some(second), "src/app.rs:3:5");
    let report = report.expect("the first mismatch is reported");
    assert_eq!(
        report,
        format!(
            "[halyard] Hydration mismatch while hydrating the view defined at src/app.rs:3:5.\n  \
             expected: a text node\n  found:    <p>\n  at:       html > body > main > div#app > \
             p:nth-child(3){MISMATCH_ADVICE}"
        )
    );
    assert!(hydration_failed(&tree));
    assert_eq!(report_mismatch(&mut tree, "a text node", Some(second), "src/app.rs:3:5"), None);
    cursor.child(&tree, false);
    cursor.parent(&tree);
    cursor.set(&tree, 0);
    assert_eq!(cursor.current(&tree), None);
    assert!(take_hydration_failure(&mut tree));
    assert!(!take_hydration_failure(&mut tree));
    assert_eq!(cursor.current(&tree), Some(second));
}

/// A placeholder is the comment the cursor moves to; where there is none, one is made and
/// the mismatch reported, as running off the end of the server-rendered DOM.
#[test]
fn a_placeholder_is_found_or_made() {
    let (mut tree, div, _, _) = page();
    let mut cursor = Cursor::new(div);
    let mut position = Position::FirstChild;
    let found = cursor.next_placeholder(&mut tree, &mut position, false, "here");
    assert!(matches!(found, Placeholder::Found(i) if describe_node(&tree, Some(i)) == "<!--bo-x-->"));
    assert_eq!(position, Position::NextChild);
    let made = cursor.next_placeholder(&mut tree, &mut position, false, "here");
    match made {
        Placeholder::Created { report: Some(report) } => {
            assert!(report.contains("expected: a marker (comment) node\n  found:    <p>\n"), "{report}")
        }
        other => panic!("expected a report, got {other:?}"),
    }
    let after = cursor.next_placeholder(&mut tree, &mut position, false, "here");
    assert!(matches!(after, Placeholder::Created { report: None }));
}

/// A tree refuses a child for a node it does not have.
#[test]
fn a_child_needs_a_parent_in_the_tree() {
    let mut tree = DomTree::new(NodeKind::Document);
    assert_eq!(tree.append_child(3, NodeKind::Text("x".into())), None);
    assert_eq!(tree.len(), 1);
    let child = tree.append_child(0, NodeKind::Text("x".into())).unwrap();
    assert_eq!(tree.parent(child), Some(0));
    assert_eq!(tree.first_child(0), Some(child));
    assert_eq!(tree.next_sibling(child), None);
}
