use tz::paths::{get_relative_path, has_base, is_name_component};

fn components(parts: &[&str]) -> Vec<String> {
    parts.iter().map(|p| p.to_string()).collect()
}

#[test]
fn entry_below_the_root_is_named_by_the_rest() {
    let base = components(&["home", "me", "tree"]);
    let path = components(&["home", "me", "tree", "sub", "file.txt"]);
    assert_eq!(get_relative_path(&base, &path), "sub/file.txt");
}

#[test]
fn entry_directly_in_the_root_is_named_by_its_name() {
    let base = components(&["tree"]);
    let path = components(&["tree", "file.txt"]);
    assert_eq!(get_relative_path(&base, &path), "file.txt");
}

#[test]
fn root_itself_has_the_empty_path() {
    let base = components(&["home", "tree"]);
    assert_eq!(get_relative_path(&base, &base), "");
}

#[test]
fn entry_outside_the_root_is_named_by_its_last_component() {
    let base = components(&["home", "tree"]);
    let path = components(&["home", "other", "file.txt"]);
    assert_eq!(get_relative_path(&base, &path), "file.txt");
}

#[test]
fn shorter_path_is_named_by_its_last_component() {
    let base = components(&["home", "tree", "deep"]);
    let path = components(&["home", "tree"]);
    assert_eq!(get_relative_path(&base, &path), "tree");
}

#[test]
fn empty_path_outside_the_root_has_the_empty_path() {
    let base = components(&["home"]);
    assert_eq!(get_relative_path(&base, &Vec::new()), "");
}

#[test]
fn empty_base_leaves_the_whole_path() {
    let path = components(&["a", "b", "c"]);
    assert_eq!(get_relative_path(&Vec::new(), &path), "a/b/c");
}

#[test]
fn components_are_compared_whole() {
    let base = components(&["tree"]);
    let path = components(&["tree2", "file"]);
    assert_eq!(get_relative_path(&base, &path), "file");
    assert!(!has_base(&base, &path));
}

#[test]
fn has_base_compares_the_first_components() {
    let base = components(&["a", "b"]);
    assert!(has_base(&base, &components(&["a", "b"])));
    assert!(has_base(&base, &components(&["a", "b", "c"])));
    assert!(has_base(&Vec::new(), &Vec::new()));
    assert!(!has_base(&base, &components(&["a"])));
    assert!(!has_base(&base, &components(&["a", "c", "b"])));
}

#[test]
fn components_with_other_scripts_are_kept() {
    let base = components(&["r\u{e9}pertoire"]);
    let path = components(&["r\u{e9}pertoire", "\u{6587}\u{4ef6}", "x"]);
    assert_eq!(get_relative_path(&base, &path), "\u{6587}\u{4ef6}/x");
}

#[test]
fn parent_component_outside_the_root_has_the_empty_path() {
    let base = components(&["a"]);
    assert_eq!(get_relative_path(&base, &components(&[".."])), "");
    assert_eq!(get_relative_path(&base, &components(&["b", ".."])), "");
}

#[test]
fn current_component_outside_the_root_has_the_empty_path() {
    let base = components(&["a"]);
    assert_eq!(get_relative_path(&base, &components(&["."])), "");
}

#[test]
fn root_alone_outside_the_root_has_the_empty_path() {
    let base = components(&["a"]);
    assert_eq!(get_relative_path(&base, &components(&["/"])), "");
}

#[test]
fn name_behind_the_root_outside_the_base_is_kept() {
    let base = components(&["/", "a"]);
    assert_eq!(get_relative_path(&base, &components(&["/", "b"])), "b");
    assert_eq!(get_relative_path(&base, &components(&["/", "..."])), "...");
    assert_eq!(get_relative_path(&base, &components(&["/", ".hidden"])), ".hidden");
}

#[test]
fn special_components_below_the_root_are_kept() {
    let base = components(&["a"]);
    assert_eq!(get_relative_path(&base, &components(&["a", "..", "b"])), "../b");
    assert_eq!(get_relative_path(&base, &components(&["a", ".."])), "..");
}

#[test]
fn names_are_all_components_but_three() {
    for text in [".", "..", "/"] {
        assert!(!is_name_component(&text.to_string()));
    }
    for text in ["", "a", "...", ".a", "a.", "..a", "//", "/a", " ", "\\"] {
        assert!(is_name_component(&text.to_string()));
    }
}
