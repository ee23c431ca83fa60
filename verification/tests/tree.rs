use summary_generate::outline::{Item, Node};
use summary_generate::source::{Entry, WalkError};
use summary_generate::tree::{
    child_path, create_chapter, get_content_from_index, is_chapter_file, is_skipped_dir,
    load_index_str, visit_dirs_build,
};

fn path(segments: &[&str]) -> Vec<String> {
    segments.iter().map(|s| s.to_string()).collect()
}

fn chapters(items: &[Item]) -> Vec<&Node> {
    items
        .iter()
        .filter_map(|item| match item {
            Item::Node(n) => Some(n),
            _ => None,
        })
        .collect()
}

fn labels(items: &[Item]) -> Vec<String> {
    items
        .iter()
        .map(|item| match item {
            Item::Node(n) => n.name.clone(),
            Item::Separator => "---".to_string(),
            Item::PartTitle(t) => format!("# {}", t),
        })
        .collect()
}

fn all_paths(items: &[Item], out: &mut Vec<Vec<String>>) {
    for item in items {
        if let Item::Node(n) = item {
            out.push(n.source_path.clone());
            all_paths(&n.children, out);
        }
    }
}

fn build(root: &Entry) -> Vec<Item> {
    visit_dirs_build(root, &Vec::new(), &Vec::new()).unwrap()
}

#[test]
fn skipped_directories_are_book_and_images() {
    assert!(is_skipped_dir("book"));
    assert!(is_skipped_dir("images"));
    assert!(!is_skipped_dir("Book"));
    assert!(!is_skipped_dir("books"));
    assert!(!is_skipped_dir("image"));
    assert!(!is_skipped_dir(""));
}

#[test]
fn chapter_files_are_markdown_files_that_are_not_reserved() {
    assert!(is_chapter_file("intro.md"));
    assert!(is_chapter_file("readme2.md"));
    assert!(!is_chapter_file("README.md"));
    assert!(!is_chapter_file("readme.md"));
    assert!(!is_chapter_file("Index.md"));
    assert!(!is_chapter_file("SUMMARY.md"));
    assert!(!is_chapter_file("summary.md"));
    assert!(!is_chapter_file("intro.txt"));
    assert!(!is_chapter_file("intro.MD"));
    assert!(!is_chapter_file(".md"));
}

#[test]
fn load_index_str_finds_the_entry_by_name() {
    let entries = vec![
        Entry::file("a.md", "A"),
        Entry::dir("README.md", vec![Entry::file("x.md", "X")]),
        Entry::file("INDEX.md", "I"),
        Entry::file("a.md", "again"),
    ];
    assert_eq!(load_index_str(&entries, "a.md"), Some("A".to_string()));
    assert_eq!(load_index_str(&entries, "INDEX.md"), Some("I".to_string()));
    assert_eq!(load_index_str(&entries, "README.md"), Some(String::new()));
    assert_eq!(load_index_str(&entries, "index.md"), None);
    assert_eq!(load_index_str(&Vec::new(), "a.md"), None);
}

#[test]
fn index_md_is_chosen_before_readme_md() {
    let entries = vec![Entry::file("README.md", "readme"), Entry::file("INDEX.md", "index")];
    let mut relative = path(&["dir"]);
    let content = get_content_from_index(&entries, &mut relative);
    assert_eq!(content, "index");
    assert_eq!(relative, path(&["dir", "INDEX.md"]));
}

#[test]
fn index_candidates_are_tried_in_their_order() {
    let all = ["INDEX.md", "README.md", "index.md", "readme.md"];
    for first in 0..all.len() {
        let mut entries: Vec<Entry> = Vec::new();
        for name in all[first..].iter().rev() {
            entries.push(Entry::file(name, name));
        }
        let mut relative = path(&["a", "b"]);
        let content = get_content_from_index(&entries, &mut relative);
        assert_eq!(content, all[first]);
        assert_eq!(relative, path(&["a", "b", all[first]]));
    }
}

#[test]
fn directory_without_index_has_empty_text_and_its_own_path() {
    let entries = vec![Entry::file("Readme.md", "no"), Entry::file("index.MD", "no")];
    let mut relative = path(&["dir"]);
    let content = get_content_from_index(&entries, &mut relative);
    assert_eq!(content, "");
    assert_eq!(relative, path(&["dir"]));
}

#[test]
fn child_path_adds_a_segment() {
    assert_eq!(child_path(&path(&["a"]), "b"), path(&["a", "b"]));
    assert_eq!(child_path(&Vec::new(), "b"), path(&["b"]));
}

#[test]
fn create_chapter_for_a_file() {
    let entry = Entry::file("01.guide_intro.md", "# Intro\n");
    let node = create_chapter(&entry, &path(&["part"]), &path(&["Part"]));
    assert_eq!(node.name, "guide_intro.md");
    assert_eq!(node.category_tag, "01.guide");
    assert_eq!(node.content, "# Intro\n");
    assert_eq!(node.source_path, path(&["part", "01.guide_intro.md"]));
    assert_eq!(node.ancestor_names, path(&["Part"]));
    assert!(node.position_number.is_empty());
    assert!(node.children.is_empty());
}

#[test]
fn create_chapter_for_a_directory_takes_the_index_file() {
    let entry = Entry::dir(
        "2.ref_api",
        vec![Entry::file("other.md", "other"), Entry::file("readme.md", "about the api")],
    );
    let node = create_chapter(&entry, &Vec::new(), &Vec::new());
    assert_eq!(node.name, "ref_api");
    assert_eq!(node.content, "about the api");
    assert_eq!(node.source_path, path(&["2.ref_api", "readme.md"]));
    assert_eq!(node.category_tag, "");
    assert!(node.children.is_empty());

    let bare = create_chapter(&Entry::dir("2.ref_api", Vec::new()), &Vec::new(), &Vec::new());
    assert_eq!(bare.content, "");
    assert_eq!(bare.source_path, path(&["2.ref_api"]));
    assert_eq!(bare.category_tag, "2.ref");
}

#[test]
fn a_name_of_digits_and_dots_gives_the_empty_display_name() {
    let node = create_chapter(&Entry::dir("2024.01", Vec::new()), &Vec::new(), &Vec::new());
    assert_eq!(node.name, "");
    assert_eq!(node.source_path, path(&["2024.01"]));
}

#[test]
fn siblings_in_one_directory_are_ordered_and_grouped() {
    let root = Entry::dir(
        "src",
        vec![
            Entry::file("ref_api.md", "api"),
            Entry::file("guide_setup.md", "setup"),
            Entry::dir("guide_advanced", vec![Entry::file("notes.txt", "n")]),
            Entry::file("guide_intro.md", "intro"),
        ],
    );
    let items = build(&root);
    assert_eq!(
        labels(&items),
        vec![
            "---",
            "# guide",
            "guide_advanced",
            "guide_intro.md",
            "guide_setup.md",
            "---",
            "# ref",
            "ref_api.md",
        ]
    );
    let found = chapters(&items);
    assert_eq!(found[1].content, "intro");
    assert_eq!(found[3].source_path, path(&["ref_api.md"]));
}

#[test]
fn a_directory_with_an_index_file_is_ordered_by_that_file() {
    let root = Entry::dir(
        "src",
        vec![
            Entry::file("ref_api.md", "api"),
            Entry::file("guide_setup.md", "setup"),
            Entry::dir("guide_advanced", vec![Entry::file("README.md", "advanced")]),
            Entry::file("guide_intro.md", "intro"),
        ],
    );
    let items = build(&root);
    assert_eq!(
        labels(&items),
        vec![
            "guide_advanced",
            "---",
            "# guide",
            "guide_intro.md",
            "guide_setup.md",
            "---",
            "# ref",
            "ref_api.md",
        ]
    );
    let found = chapters(&items);
    assert_eq!(found[0].content, "advanced");
    assert_eq!(found[0].source_path, path(&["guide_advanced", "README.md"]));
    assert_eq!(found[0].category_tag, "");
}

#[test]
fn nothing_comes_from_book_or_images_at_any_depth() {
    let root = Entry::dir(
        "src",
        vec![
            Entry::dir("book", vec![Entry::file("README.md", "b"), Entry::file("x.md", "x")]),
            Entry::dir("images", vec![Entry::file("y.md", "y")]),
            Entry::dir(
                "part",
                vec![
                    Entry::dir("book", vec![Entry::file("z.md", "z")]),
                    Entry::dir(
                        "deep",
                        vec![
                            Entry::dir("images", vec![Entry::file("INDEX.md", "i")]),
                            Entry::file("kept.md", "kept"),
                        ],
                    ),
                    Entry::file("book.md", "a file"),
                ],
            ),
            Entry::file("images.md", "another file"),
        ],
    );
    let items = build(&root);
    let mut paths = Vec::new();
    all_paths(&items, &mut paths);
    paths.sort();
    assert_eq!(
        paths,
        vec![
            path(&["images.md"]),
            path(&["part"]),
            path(&["part", "book.md"]),
            path(&["part", "deep"]),
            path(&["part", "deep", "kept.md"]),
        ]
    );
    for p in &paths {
        assert!(p.iter().all(|segment| segment != "book" && segment != "images"));
    }
}

#[test]
fn a_root_named_book_or_images_gives_nothing() {
    let book = Entry::dir("book", vec![Entry::file("a.md", "a")]);
    let images = Entry::dir("images", vec![Entry::file("a.md", "a")]);
    assert!(build(&book).is_empty());
    assert!(build(&images).is_empty());
}

#[test]
fn a_root_that_is_no_directory_gives_nothing() {
    assert!(build(&Entry::file("src", "")).is_empty());
    assert!(build(&Entry::file("a.md", "text")).is_empty());
}

#[test]
fn other_files_and_reserved_names_are_ignored() {
    let root = Entry::dir(
        "src",
        vec![
            Entry::file("README.md", "r"),
            Entry::file("Summary.md", "s"),
            Entry::file("index.md", "i"),
            Entry::file("picture.png", ""),
            Entry::file("notes.MD", ""),
            Entry::file(".md", ""),
            Entry::file("kept.md", "k"),
        ],
    );
    let items = build(&root);
    assert_eq!(labels(&items), vec!["kept.md"]);
}

#[test]
fn children_are_built_and_grouped_below_their_directory() {
    let root = Entry::dir(
        "src",
        vec![Entry::dir(
            "1.Part One",
            vec![
                Entry::file("INDEX.md", "part one"),
                Entry::dir("b_sub", vec![Entry::file("x_leaf.md", "leaf")]),
                Entry::file("a_first.md", "first"),
            ],
        )],
    );
    let items = build(&root);
    assert_eq!(labels(&items), vec!["Part One"]);
    let part = chapters(&items)[0];
    assert_eq!(part.content, "part one");
    assert_eq!(part.source_path, path(&["1.Part One", "INDEX.md"]));
    assert!(part.ancestor_names.is_empty());
    assert_eq!(labels(&part.children), vec!["---", "# a", "a_first.md", "---", "# b", "b_sub"]);
    let below = chapters(&part.children);
    assert_eq!(below[0].ancestor_names, path(&["Part One"]));
    assert_eq!(below[0].source_path, path(&["1.Part One", "a_first.md"]));
    assert_eq!(below[1].source_path, path(&["1.Part One", "b_sub"]));
    assert_eq!(labels(&below[1].children), vec!["---", "# x", "x_leaf.md"]);
    let leaf = chapters(&below[1].children)[0];
    assert_eq!(leaf.ancestor_names, path(&["Part One", "b_sub"]));
    assert_eq!(leaf.source_path, path(&["1.Part One", "b_sub", "x_leaf.md"]));
    assert_eq!(leaf.content, "leaf");
    assert!(leaf.position_number.is_empty());
}

#[test]
fn a_directory_that_cannot_be_listed_fails_the_walk() {
    let root = Entry::dir(
        "src",
        vec![
            Entry::file("a.md", "a"),
            Entry::dir("part", vec![Entry::unreadable("locked", "permission denied")]),
            Entry::unreadable("later", "too late"),
        ],
    );
    let result = visit_dirs_build(&root, &Vec::new(), &Vec::new());
    assert_eq!(
        result,
        Err(WalkError { path: path(&["part", "locked"]), reason: "permission denied".to_string() })
    );
}

#[test]
fn a_root_that_cannot_be_listed_fails_the_walk() {
    let root = Entry::unreadable("src", "gone");
    let result = visit_dirs_build(&root, &path(&["up"]), &Vec::new());
    assert_eq!(result, Err(WalkError { path: path(&["up"]), reason: "gone".to_string() }));
}

#[test]
fn a_skipped_directory_that_cannot_be_listed_is_no_failure() {
    let root = Entry::dir(
        "src",
        vec![
            Entry::unreadable("book", "permission denied"),
            Entry::unreadable("images", "permission denied"),
            Entry::file("a.md", "a"),
        ],
    );
    assert_eq!(labels(&build(&root)), vec!["a.md"]);
    assert!(build(&Entry::unreadable("book", "permission denied")).is_empty());
}
