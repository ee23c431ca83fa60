use summary_generate::names::get_type_name_and_file_name;
use summary_generate::outline::{Item, Node};
use summary_generate::sorter::{reorder, sort_nodes, sorts_before};

fn path(segments: &[&str]) -> Vec<String> {
    segments.iter().map(|s| s.to_string()).collect()
}

fn chapter(file: &str, content: &str) -> Node {
    Node::new(file, content.to_string(), path(&[file]), Vec::new())
}

fn labels(items: &[Item]) -> Vec<String> {
    items
        .iter()
        .map(|item| match item {
            Item::Node(n) => format!("{}={}", n.file_name(), n.content),
            Item::Separator => "---".to_string(),
            Item::PartTitle(t) => format!("# {}", t),
        })
        .collect()
}

fn names(nodes: &[Node]) -> Vec<String> {
    nodes.iter().map(|n| format!("{}={}", n.file_name(), n.content)).collect()
}

#[test]
fn siblings_are_ordered_and_grouped_by_category() {
    let children = vec![
        chapter("ref_api.md", ""),
        chapter("guide_setup.md", ""),
        chapter("guide_advanced", ""),
        chapter("guide_intro.md", ""),
    ];
    let items = reorder(children);
    assert_eq!(
        labels(&items),
        vec![
            "---",
            "# guide",
            "guide_advanced=",
            "guide_intro.md=",
            "guide_setup.md=",
            "---",
            "# ref",
            "ref_api.md=",
        ]
    );
}

#[test]
fn chapters_without_tag_come_first_and_open_no_group() {
    let children = vec![
        chapter("zeta.md", ""),
        chapter("a_one.md", ""),
        chapter("_hidden.md", ""),
        chapter("Alpha.md", ""),
    ];
    let items = reorder(children);
    assert_eq!(
        labels(&items),
        vec!["Alpha.md=", "_hidden.md=", "zeta.md=", "---", "# a", "a_one.md="]
    );
}

#[test]
fn the_tag_decides_before_the_file_name() {
    // As plain strings "a-b_x" sorts before "a_x"; the tag "a" sorts before "a-b".
    let short = chapter("a_x", "");
    let long = chapter("a-b_x", "");
    assert!("a-b_x" < "a_x");
    assert!(sorts_before(&short, &long));
    assert!(!sorts_before(&long, &short));
    assert!(!sorts_before(&short, &short));
    // With equal tags the file names decide.
    let first = chapter("a_x", "");
    let second = chapter("a_y", "");
    assert!(sorts_before(&first, &second));
    assert!(!sorts_before(&second, &first));
    // Without a tag a chapter sorts before every tagged one.
    let plain = chapter("zzz.md", "");
    assert!(sorts_before(&plain, &short));
}

#[test]
fn sorting_is_stable_for_equal_file_names() {
    let nodes = vec![
        chapter("b_x", "first"),
        chapter("a_x", "first"),
        chapter("b_x", "second"),
        chapter("a_x", "second"),
        chapter("b_x", "third"),
    ];
    let sorted = sort_nodes(nodes);
    assert_eq!(
        names(&sorted),
        vec!["a_x=first", "a_x=second", "b_x=first", "b_x=second", "b_x=third"]
    );
}

#[test]
fn sorting_the_empty_list_gives_the_empty_list() {
    assert!(sort_nodes(Vec::new()).is_empty());
    assert!(reorder(Vec::new()).is_empty());
}

#[test]
fn part_titles_lose_the_ordering_prefix_but_groups_go_by_the_whole_tag() {
    let children = vec![
        chapter("02.basics_b.md", ""),
        chapter("01.basics_a.md", ""),
        chapter("01_c.md", ""),
    ];
    let items = reorder(children);
    assert_eq!(
        labels(&items),
        vec![
            "---",
            "# ",
            "01_c.md=",
            "---",
            "# basics",
            "01.basics_a.md=",
            "---",
            "# basics",
            "02.basics_b.md=",
        ]
    );
}

#[test]
fn the_file_name_is_the_last_segment_of_the_path() {
    let dir = Node::new("guide_dir", String::new(), path(&["guide_dir", "README.md"]), Vec::new());
    let file = Node::new("guide_a.md", String::new(), path(&["guide_a.md"]), Vec::new());
    assert_eq!(dir.file_name(), "README.md");
    assert!(sorts_before(&dir, &file));
    let items = reorder(vec![file, dir]);
    assert_eq!(labels(&items), vec!["README.md=", "---", "# guide", "guide_a.md="]);
}

#[test]
fn sorting_agrees_with_a_stable_sort_by_tag_and_remainder() {
    let files = [
        "ref_api.md", "guide_setup.md", "guide_advanced", "guide_intro.md", "zeta.md", "a_one.md",
        "_hidden.md", "Alpha.md", "a-b_x", "a_x", "ab_zz", "b_a", "a.b_x", "01_c.md", "a_x",
        "02.basics_b.md", "README.md", "", "guide_", "guide", "\u{00e9}_x", "z_\u{00e9}",
    ];
    let nodes: Vec<Node> =
        files.iter().enumerate().map(|(i, f)| chapter(f, &i.to_string())).collect();
    let mut expected: Vec<(String, String)> =
        files.iter().enumerate().map(|(i, f)| (f.to_string(), i.to_string())).collect();
    expected.sort_by(|a, b| {
        get_type_name_and_file_name(&a.0).cmp(&get_type_name_and_file_name(&b.0))
    });
    let sorted = sort_nodes(nodes);
    let found: Vec<(String, String)> =
        sorted.iter().map(|n| (n.file_name().to_string(), n.content.clone())).collect();
    assert_eq!(found, expected);
}
