use std::cell::RefCell;
use summary_generate::outline::{Item, Node};

fn path(segments: &[&str]) -> Vec<String> {
    segments.iter().map(|s| s.to_string()).collect()
}

fn leaf(name: &str, segments: &[&str]) -> Node {
    Node::new(name, String::new(), path(segments), Vec::new())
}

#[test]
fn new_node_has_the_tag_of_its_file_name() {
    let node = Node::new(
        "setup.md",
        "text".to_string(),
        path(&["part", "guide_setup.md"]),
        path(&["part"]),
    );
    assert_eq!(node.name, "setup.md");
    assert_eq!(node.category_tag, "guide");
    assert_eq!(node.content, "text");
    assert_eq!(node.source_path, path(&["part", "guide_setup.md"]));
    assert_eq!(node.ancestor_names, path(&["part"]));
    assert!(node.position_number.is_empty());
    assert!(node.children.is_empty());
    assert_eq!(node.file_name(), "guide_setup.md");
}

#[test]
fn node_without_path_has_the_empty_file_name() {
    let node = leaf("x", &[]);
    assert_eq!(node.file_name(), "");
    assert_eq!(node.category_tag, "");
    assert_eq!(Node::raw_name(&path(&["a", "b"])), "b");
    assert_eq!(Node::raw_name(&Vec::new()), "");
}

#[test]
fn same_entry_compares_tag_and_name() {
    let a = Node::new("intro", "one".to_string(), path(&["x", "guide_1"]), Vec::new());
    let b = Node::new("intro", "two".to_string(), path(&["y", "guide_2"]), path(&["y"]));
    let c = Node::new("intro", "one".to_string(), path(&["x", "ref_1"]), Vec::new());
    let d = Node::new("other", "one".to_string(), path(&["x", "guide_1"]), Vec::new());
    assert!(a.same_entry(&b));
    assert!(!a.same_entry(&c));
    assert!(!a.same_entry(&d));
}

#[test]
fn recursive_handle_visits_parents_before_children() {
    let mut inner = leaf("inner", &["top", "inner"]);
    inner.children = vec![Item::Node(leaf("deep", &["top", "inner", "deep"]))];
    let mut top = leaf("top", &["top"]);
    top.children = vec![
        Item::Separator,
        Item::PartTitle("part".to_string()),
        Item::Node(inner),
        Item::Node(leaf("last", &["top", "last"])),
    ];
    let seen: RefCell<Vec<(String, usize)>> = RefCell::new(Vec::new());
    let visit = |item: &Item, level: usize| {
        let label = match item {
            Item::Node(n) => n.name.clone(),
            Item::Separator => "---".to_string(),
            Item::PartTitle(t) => format!("# {}", t),
        };
        seen.borrow_mut().push((label, level));
    };
    Item::Node(top).recursive_handle(3, &visit);
    let expected: Vec<(String, usize)> = vec![
        ("top".to_string(), 3),
        ("---".to_string(), 4),
        ("# part".to_string(), 4),
        ("inner".to_string(), 4),
        ("deep".to_string(), 5),
        ("last".to_string(), 4),
    ];
    assert_eq!(*seen.borrow(), expected);
}
