use lune_modules::path::{
    common_ancestor_of, has_prefix, join_text, parent_of, parse_path, relative_path, render_path,
    split_text, starts_with, walk_from,
};

fn parts(list: &[&str]) -> Vec<String> {
    list.iter().map(|s| s.to_string()).collect()
}

#[test]
fn split_keeps_empty_pieces() {
    assert_eq!(split_text("/a//b/"), parts(&["", "a", "", "b", ""]));
    assert_eq!(split_text(""), parts(&[""]));
    assert_eq!(split_text("abc"), parts(&["abc"]));
}

#[test]
fn parse_cleans_dots_and_double_slashes() {
    assert_eq!(parse_path("/a/./b//../c"), parts(&["a", "c"]));
    assert_eq!(parse_path("/"), parts(&[]));
    assert_eq!(parse_path("/../.."), parts(&[]));
}

#[test]
fn render_writes_the_root_as_a_slash() {
    assert_eq!(render_path(&parts(&[])), "/");
    assert_eq!(render_path(&parts(&["a", "b.luau"])), "/a/b.luau");
}

#[test]
fn spellings_of_one_location_agree() {
    let dir = parts(&["proj", "src"]);
    let plain = walk_from(dir.clone(), &split_text("./a/b"));
    let dotted = walk_from(dir.clone(), &split_text("./a/./b"));
    let detour = walk_from(dir.clone(), &split_text("./a/x/../b"));
    let doubled = walk_from(dir.clone(), &split_text("./a//b"));
    assert_eq!(plain, parts(&["proj", "src", "a", "b"]));
    assert_eq!(dotted, plain);
    assert_eq!(detour, plain);
    assert_eq!(doubled, plain);
}

#[test]
fn join_from_the_root_replaces_the_directory() {
    let dir = parts(&["proj", "src"]);
    assert_eq!(join_text(&dir, "/etc/x"), parts(&["etc", "x"]));
    assert_eq!(join_text(&dir, "../pkgs"), parts(&["proj", "pkgs"]));
}

#[test]
fn parent_of_the_root_is_the_root() {
    assert_eq!(parent_of(&parts(&[])), parts(&[]));
    assert_eq!(parent_of(&parts(&["a", "b"])), parts(&["a"]));
}

#[test]
fn common_ancestor_is_the_shared_start() {
    let a = parts(&["proj", "src", "a"]);
    let b = parts(&["proj", "pkgs", "P"]);
    assert_eq!(common_ancestor_of(&a, &b), parts(&["proj"]));
    assert_eq!(common_ancestor_of(&a, &parts(&["other"])), parts(&[]));
    assert!(has_prefix(&a, &parts(&["proj", "src"])));
    assert!(!has_prefix(&a, &parts(&["proj", "pkgs"])));
}

#[test]
fn relative_path_goes_down_or_up() {
    let from = parts(&["proj", "src"]);
    assert_eq!(relative_path(&from, &parts(&["proj", "src", "a", "b.luau"])), "./a/b.luau");
    assert_eq!(relative_path(&from, &parts(&["proj", "pkgs", "P"])), "../pkgs/P");
    assert_eq!(relative_path(&from, &parts(&["other", "x"])), "../../other/x");
    assert_eq!(relative_path(&from, &from), "./");
}

#[test]
fn starts_with_compares_characters() {
    assert!(starts_with("./a", "./"));
    assert!(!starts_with(".", "./"));
    assert!(starts_with("anything", ""));
}
