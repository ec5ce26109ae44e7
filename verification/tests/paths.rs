use mikke::paths::{components_of, file_name, path_eq, path_join};

fn chars(s: &str) -> Vec<char> {
    s.chars().collect()
}

#[test]
fn components_follow_path_semantics() {
    let c = components_of(&chars("/a//b/./c/"));
    assert_eq!(c, vec![chars("/"), chars("a"), chars("b"), chars("c")]);
    let c = components_of(&chars("./a/../b"));
    assert_eq!(c, vec![chars("."), chars("a"), chars(".."), chars("b")]);
    assert!(components_of(&chars("")).is_empty());
}

#[test]
fn path_eq_compares_components() {
    assert!(path_eq("/a//b/", "/a/b"));
    assert!(path_eq("a/./b", "a/b"));
    assert!(!path_eq("/a/b", "a/b"));
    assert!(!path_eq("/a/b", "/a/b/c"));
}

#[test]
fn path_join_like_pathbuf_push() {
    assert_eq!(path_join("/a", "b"), "/a/b");
    assert_eq!(path_join("/a/", "b"), "/a/b");
    assert_eq!(path_join("/a", "/c"), "/c");
    assert_eq!(path_join("", "b"), "b");
    assert_eq!(path_join("/a", ""), "/a/");
}

#[test]
fn file_name_like_path_file_name() {
    assert_eq!(file_name("/a/b.txt"), Some(chars("b.txt")));
    assert_eq!(file_name("/a/b/"), Some(chars("b")));
    assert_eq!(file_name("/a/.."), None);
    assert_eq!(file_name("/"), None);
    assert_eq!(file_name(""), None);
}
