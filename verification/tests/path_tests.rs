//! Paths, texts and orders.

use orgnotion::order::{sort, sorted_path_set};
use orgnotion::path::VaultPath;
use orgnotion::text::{
    cut_at, eq_ignoring_case, has_prefix, indentation, is_text_before, joined, split_pieces,
    to_decimal, trim_pieces, trimmed, without_end_newlines, Separator,
};

fn path(s: &str) -> VaultPath {
    VaultPath::parse(s)
}

#[test]
fn paths_are_read_component_by_component() {
    assert_eq!(path("/a//b/./c/"), path("/a/b/c"));
    assert_eq!(path("/a/b").to_text(), "/a/b");
    assert_eq!(path("./a").to_text(), "./a");
    assert_ne!(path("./a"), path("a"));
    assert_eq!(path("/").to_text(), "/");
    assert_eq!(path(""), VaultPath::empty());
}

#[test]
fn parents_and_names() {
    assert_eq!(path("/a/b.org").parent(), Some(path("/a")));
    assert_eq!(path("a").parent(), Some(VaultPath::empty()));
    assert_eq!(path("/").parent(), None);
    assert_eq!(path("").parent(), None);
    assert_eq!(path("/a/b.org").file_name().as_deref(), Some("b.org"));
    assert_eq!(path("a/..").file_name(), None);
    assert_eq!(path("/a/b.tar.gz").file_stem().as_deref(), Some("b.tar"));
    assert_eq!(path("/a/.hidden").file_stem().as_deref(), Some(".hidden"));
}

#[test]
fn extensions_stand_behind_the_last_dot() {
    assert!(path("/a/b.org").has_extension("org"));
    assert!(path("/a/b.tar.org").has_extension("org"));
    assert!(!path("/a/b.org.txt").has_extension("org"));
    assert!(!path("/a/.org").has_extension("org"));
    assert!(!path("/a/org").has_extension("org"));
    assert!(!path("/a/b.ORG").has_extension("org"));
    assert!(!path("/").has_extension("org"));
}

#[test]
fn prefixes_are_stripped_by_whole_components() {
    assert_eq!(path("/v/a/b").strip_prefix(&path("/v")), Some(path("a/b")));
    assert_eq!(path("/vault/a").strip_prefix(&path("/v")), None);
    assert_eq!(path("v/a").strip_prefix(&path("/v")), None);
    assert_eq!(
        path("/v").strip_prefix(&path("/v")),
        Some(VaultPath::empty())
    );
}

#[test]
fn paths_are_ordered_by_components() {
    assert!(path("/a/b").is_before(&path("/a-b")));
    assert!(path("/a").is_before(&path("/a/b")));
    assert!(!path("/a").is_before(&path("/a")));
    let sorted = sort(vec![path("/b"), path("/a-b"), path("/a/b"), path("/a")]);
    let texts: Vec<String> = sorted.iter().map(VaultPath::to_text).collect();
    assert_eq!(texts, vec!["/a", "/a/b", "/a-b", "/b"]);
    let set = sorted_path_set(vec![path("b"), path("a"), path("b")]);
    assert_eq!(set, vec![path("a"), path("b")]);
}

#[test]
fn ancestors_come_shallowest_first() {
    assert_eq!(
        path("a/b/c").ancestors_shallowest_first(),
        vec![path("a"), path("a/b"), path("a/b/c")]
    );
    assert!(VaultPath::empty().ancestors_shallowest_first().is_empty());
}

#[test]
fn white_space_is_trimmed_as_unicode_has_it() {
    assert_eq!(trimmed("\u{a0}\t x y\u{3000}\n"), "x y");
    assert_eq!(trimmed(" \n"), "");
    assert_eq!(without_end_newlines("a\n \n\n"), "a\n ");
}

#[test]
fn texts_are_cut_and_split() {
    assert_eq!(cut_at("id::§1::x", "::"), "id");
    assert_eq!(cut_at("id:x", "::"), "id:x");
    assert!(has_prefix("id:x", "id:"));
    assert!(!has_prefix("ID:x", "id:"));
    let pieces = split_pieces(":a: b\tc:", Separator::Tag);
    assert_eq!(pieces, vec!["", "a", "", "b", "c", ""]);
    assert_eq!(trim_pieces(&pieces), vec!["a", "b", "c"]);
    assert_eq!(split_pieces("", Separator::Line), vec![""]);
}

#[test]
fn case_is_ignored_for_ascii_only() {
    assert!(eq_ignoring_case("FileTags", "FILETAGS"));
    assert!(!eq_ignoring_case("é", "É"));
    assert!(!eq_ignoring_case("ab", "abc"));
}

#[test]
fn numbers_and_lists_as_text() {
    assert_eq!(to_decimal(0), "0");
    assert_eq!(to_decimal(1203), "1203");
    assert_eq!(to_decimal(usize::MAX), usize::MAX.to_string());
    assert_eq!(indentation(2), "    ");
    assert_eq!(joined(&vec!["a".to_string(), "b".to_string()], ", "), "a, b");
    assert_eq!(joined(&vec![], ", "), "");
}

#[test]
fn texts_are_ordered_by_code_points() {
    assert!(is_text_before("a", "b"));
    assert!(is_text_before("a", "ab"));
    assert!(is_text_before("Z", "a"));
    assert!(is_text_before("z", "é"));
    assert!(!is_text_before("a", "a"));
}

#[test]
fn exactly_the_white_space_of_unicode_is_trimmed() {
    let mut blank = vec![];
    for n in 0..=0x10ffffu32 {
        if let Some(c) = char::from_u32(n) {
            if trimmed(&c.to_string()).is_empty() {
                blank.push(n);
            }
        }
    }
    let mut expected: Vec<u32> = (0x9..=0xd).collect();
    expected.extend([0x20, 0x85, 0xa0, 0x1680]);
    expected.extend(0x2000..=0x200a);
    expected.extend([0x2028, 0x2029, 0x202f, 0x205f, 0x3000]);
    assert_eq!(blank, expected);
}
