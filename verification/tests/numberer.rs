use summary_generate::numberer::{assign, handle_index};
use summary_generate::outline::{Item, Node};

fn path(segments: &[&str]) -> Vec<String> {
    segments.iter().map(|s| s.to_string()).collect()
}

fn chapter(file: &str, children: Vec<Item>) -> Node {
    let mut node = Node::new(file, String::new(), path(&[file]), Vec::new());
    node.children = children;
    node
}

fn number_of<'a>(items: &'a [Item], index: usize) -> &'a Vec<usize> {
    match &items[index] {
        Item::Node(n) => &n.position_number,
        _ => panic!("no chapter at {}", index),
    }
}

fn children_of<'a>(items: &'a [Item], index: usize) -> &'a Vec<Item> {
    match &items[index] {
        Item::Node(n) => &n.children,
        _ => panic!("no chapter at {}", index),
    }
}

fn grouped_example() -> Vec<Item> {
    vec![
        Item::Separator,
        Item::PartTitle("guide".to_string()),
        Item::Node(chapter("guide_advanced", Vec::new())),
        Item::Node(chapter("guide_intro.md", Vec::new())),
        Item::Node(chapter("guide_setup.md", Vec::new())),
        Item::Separator,
        Item::PartTitle("ref".to_string()),
        Item::Node(chapter("ref_api.md", Vec::new())),
    ]
}

#[test]
fn markers_take_an_index_and_get_no_number() {
    let mut items = grouped_example();
    assign(&Vec::new(), &mut items);
    assert_eq!(items.len(), 8);
    assert_eq!(items[0], Item::Separator);
    assert_eq!(items[1], Item::PartTitle("guide".to_string()));
    assert_eq!(number_of(&items, 2), &vec![2]);
    assert_eq!(number_of(&items, 3), &vec![3]);
    assert_eq!(number_of(&items, 4), &vec![4]);
    assert_eq!(items[5], Item::Separator);
    assert_eq!(items[6], Item::PartTitle("ref".to_string()));
    assert_eq!(number_of(&items, 7), &vec![7]);
}

#[test]
fn children_are_numbered_under_their_parent() {
    let inner = vec![
        Item::Separator,
        Item::PartTitle("x".to_string()),
        Item::Node(chapter("x_deep.md", vec![Item::Node(chapter("deepest.md", Vec::new()))])),
    ];
    let mut items = vec![
        Item::Node(chapter("first.md", Vec::new())),
        Item::Node(chapter("second", inner)),
    ];
    assign(&vec![9, 4], &mut items);
    assert_eq!(number_of(&items, 0), &vec![9, 4, 0]);
    assert_eq!(number_of(&items, 1), &vec![9, 4, 1]);
    let below = children_of(&items, 1);
    assert_eq!(below[0], Item::Separator);
    assert_eq!(number_of(below, 2), &vec![9, 4, 1, 2]);
    assert_eq!(number_of(children_of(below, 2), 0), &vec![9, 4, 1, 2, 0]);
}

#[test]
fn numbering_changes_nothing_but_the_numbers() {
    let mut items = grouped_example();
    assign(&vec![1], &mut items);
    let mut again = grouped_example();
    for (numbered, plain) in items.iter_mut().zip(again.iter_mut()) {
        if let (Item::Node(a), Item::Node(b)) = (numbered, plain) {
            assert_eq!(a.position_number.len(), 2);
            b.position_number = a.position_number.clone();
        }
    }
    assert_eq!(items, again);
}

#[test]
fn numbering_again_gives_the_same_numbers() {
    let mut items = grouped_example();
    assign(&Vec::new(), &mut items);
    let mut twice = grouped_example();
    assign(&vec![5, 5], &mut twice);
    assign(&Vec::new(), &mut twice);
    assert_eq!(items, twice);
}

#[test]
fn handle_index_numbers_below_the_parent() {
    let mut parent = chapter("top", grouped_example());
    parent.position_number = vec![3];
    handle_index(&mut parent);
    assert_eq!(parent.position_number, vec![3]);
    assert_eq!(parent.name, "top");
    assert_eq!(number_of(&parent.children, 2), &vec![3, 2]);
    assert_eq!(number_of(&parent.children, 7), &vec![3, 7]);
}

#[test]
fn numbering_the_empty_list_does_nothing() {
    let mut items: Vec<Item> = Vec::new();
    assign(&vec![1, 2], &mut items);
    assert!(items.is_empty());
}
