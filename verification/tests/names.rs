use summary_generate::names::{
    chars_of, eq_ignore_ascii_case, get_type_name_and_file_name, has_md_extension, is_ordering,
    str_eq, str_lt, trim_number,
};

#[test]
fn trim_number_strips_digits_and_dots() {
    assert_eq!(trim_number("01.Intro"), "Intro");
    assert_eq!(trim_number("Intro"), "Intro");
    assert_eq!(trim_number("007"), "");
}

#[test]
fn trim_number_stops_at_the_first_other_character() {
    assert_eq!(trim_number("1.2.3-rest.4"), "-rest.4");
    assert_eq!(trim_number("..a"), "a");
    assert_eq!(trim_number("a1."), "a1.");
    assert_eq!(trim_number(""), "");
    assert_eq!(trim_number("..."), "");
    assert_eq!(trim_number(" 1"), " 1");
}

#[test]
fn trim_number_keeps_digits_that_are_not_ascii() {
    assert_eq!(trim_number("\u{0663}rd"), "\u{0663}rd");
    assert_eq!(trim_number("1\u{00e9}t\u{00e9}"), "\u{00e9}t\u{00e9}");
}

#[test]
fn ordering_characters_are_digits_and_the_dot() {
    assert!(is_ordering('0'));
    assert!(is_ordering('9'));
    assert!(is_ordering('.'));
    assert!(!is_ordering('/'));
    assert!(!is_ordering(':'));
    assert!(!is_ordering('a'));
    assert!(!is_ordering('_'));
}

#[test]
fn type_name_is_what_stands_before_the_first_underscore() {
    assert_eq!(get_type_name_and_file_name("guide_setup.md"), ("guide", "_setup.md"));
    assert_eq!(get_type_name_and_file_name("setup.md"), ("", "setup.md"));
}

#[test]
fn type_name_edge_cases() {
    assert_eq!(get_type_name_and_file_name("_setup.md"), ("", "_setup.md"));
    assert_eq!(get_type_name_and_file_name("a_b_c"), ("a", "_b_c"));
    assert_eq!(get_type_name_and_file_name("a_"), ("a", "_"));
    assert_eq!(get_type_name_and_file_name("_"), ("", "_"));
    assert_eq!(get_type_name_and_file_name(""), ("", ""));
    assert_eq!(get_type_name_and_file_name("01.guide_x"), ("01.guide", "_x"));
    assert_eq!(get_type_name_and_file_name("\u{00e9}t\u{00e9}_x"), ("\u{00e9}t\u{00e9}", "_x"));
}

#[test]
fn chars_of_gives_every_character() {
    assert_eq!(chars_of("a\u{00e9}_"), vec!['a', '\u{00e9}', '_']);
    assert_eq!(chars_of(""), Vec::<char>::new());
}

#[test]
fn str_eq_compares_characters() {
    assert!(str_eq("book", "book"));
    assert!(!str_eq("book", "books"));
    assert!(!str_eq("book", "Book"));
    assert!(str_eq("", ""));
    assert!(!str_eq("", "a"));
}

#[test]
fn str_lt_is_the_order_of_strings() {
    let samples = ["", "a", "ab", "b", "B", "README.md", "guide", "_x", "\u{00e9}", "z", "a\u{00e9}"];
    for a in samples {
        for b in samples {
            assert_eq!(str_lt(a, b), a < b);
        }
    }
}

#[test]
fn str_lt_on_chosen_pairs() {
    assert!(str_lt("a", "b"));
    assert!(str_lt("a", "ab"));
    assert!(!str_lt("ab", "a"));
    assert!(!str_lt("a", "a"));
    assert!(str_lt("README.md", "guide"));
    assert!(str_lt("z", "\u{00e9}"));
}

#[test]
fn eq_ignore_ascii_case_folds_ascii_letters_only() {
    assert!(eq_ignore_ascii_case("readme.MD", "README.md"));
    assert!(eq_ignore_ascii_case("ReadMe.md", "rEADmE.MD"));
    assert!(!eq_ignore_ascii_case("README.md", "README.mdx"));
    assert!(!eq_ignore_ascii_case("README_md", "README.md"));
    assert!(!eq_ignore_ascii_case("\u{00c9}", "\u{00e9}"));
    assert!(!eq_ignore_ascii_case("@", "`"));
    assert!(!eq_ignore_ascii_case("[", "{"));
    assert!(eq_ignore_ascii_case("", ""));
}

#[test]
fn md_extension_needs_a_stem() {
    assert!(has_md_extension("a.md"));
    assert!(has_md_extension("a.b.md"));
    assert!(has_md_extension("..md"));
    assert!(!has_md_extension(".md"));
    assert!(!has_md_extension("md"));
    assert!(!has_md_extension("a.MD"));
    assert!(!has_md_extension("a.md."));
    assert!(!has_md_extension("a.markdown"));
    assert!(!has_md_extension("amd"));
    assert!(!has_md_extension(""));
}

#[test]
fn md_extension_is_the_extension_of_the_path() {
    let samples = [
        "a.md", "a.b.md", "..md", ".md", "md", "a.MD", "a.md.", "a.markdown", "amd", "", ".",
        "a.", ".a.md", "a.mdx", "README.md", "\u{00e9}.md", "a.m\u{0064}",
    ];
    for name in samples {
        let expected = std::path::Path::new(name).extension().unwrap_or_default() == "md";
        assert_eq!(has_md_extension(name), expected, "{:?}", name);
    }
}

#[test]
fn eq_ignore_ascii_case_is_that_of_strings() {
    let samples = [
        "README.md", "readme.md", "ReadMe.MD", "README_md", "INDEX.md", "index.md", "", "a",
        "A", "@", "`", "[", "{", "\u{00c9}", "\u{00e9}", "Z", "z", "summary.md", "SUMMARY.MD",
    ];
    for a in samples {
        for b in samples {
            assert_eq!(eq_ignore_ascii_case(a, b), a.eq_ignore_ascii_case(b), "{:?} {:?}", a, b);
        }
    }
}

#[test]
fn trim_number_is_the_suffix_after_the_leading_digits_and_dots() {
    let samples = ["01.Intro", "Intro", "007", "", "1a2", ".x.", "9", "a.1", "1\u{00e9}", "12_ab"];
    for name in samples {
        let expected = name.trim_start_matches(|c: char| c.is_ascii_digit() || c == '.');
        assert_eq!(trim_number(name), expected, "{:?}", name);
    }
}
