use diffvibe::paths::{has_prefix, is_hidden_path, name_of, parent_of};
use diffvibe::sorting::{key_before, make_key};
use diffvibe::text::chars_of;

#[test]
fn keys_put_directories_first() {
    assert!(key_before(&make_key(true, "zzz"), &make_key(false, "aaa")));
    assert!(!key_before(&make_key(false, "aaa"), &make_key(true, "zzz")));
}

#[test]
fn keys_order_names_without_case() {
    assert!(key_before(&make_key(false, "apple"), &make_key(false, "Banana")));
    assert!(key_before(&make_key(false, "Apple"), &make_key(false, "banana")));
    assert!(!key_before(&make_key(false, "banana"), &make_key(false, "Apple")));
    assert!(key_before(&make_key(true, "ÉCOLE"), &make_key(true, "écolf")));
}

#[test]
fn keys_of_names_that_differ_in_case_only() {
    assert!(key_before(&make_key(false, "README"), &make_key(false, "readme")));
    assert!(!key_before(&make_key(false, "readme"), &make_key(false, "README")));
    assert!(!key_before(&make_key(false, "same"), &make_key(false, "same")));
}

#[test]
fn key_holds_the_folded_name() {
    let key = make_key(true, "MiXed.TXT");
    assert!(key.is_dir);
    assert_eq!(key.folded, chars_of("mixed.txt"));
    assert_eq!(key.name, chars_of("MiXed.TXT"));
}

#[test]
fn parent_and_name_of_paths() {
    for (path, parent, name) in [
        ("a/b/c.txt", "a/b", "c.txt"),
        ("c.txt", "", "c.txt"),
        ("", "", ""),
        ("a/", "a", ""),
        ("/x", "", "x"),
        ("a//b", "a/", "b"),
    ] {
        assert_eq!(parent_of(path), parent, "{:?}", path);
        assert_eq!(name_of(path), name, "{:?}", path);
    }
}

#[test]
fn hidden_paths_have_a_component_that_begins_with_a_dot() {
    for p in [".a", "a/.b", "a/b/.c/d", ".", "x/."] {
        assert!(is_hidden_path(p), "{:?}", p);
    }
    for p in ["", "a", "a.b", "a/b.c", "a./b", "/"] {
        assert!(!is_hidden_path(p), "{:?}", p);
    }
}

#[test]
fn prefixes() {
    assert!(has_prefix(&chars_of("build/x"), &chars_of("build/")));
    assert!(has_prefix(&chars_of("abc"), &chars_of("")));
    assert!(has_prefix(&chars_of("abc"), &chars_of("abc")));
    assert!(!has_prefix(&chars_of("ab"), &chars_of("abc")));
    assert!(!has_prefix(&chars_of("abd"), &chars_of("abc")));
}
