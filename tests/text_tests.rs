use bake::sort::{order_by_name, stable_sort_by_key, text_less_eq};
use bake::text::{has_glob_metachar, join_path, join_with_spaces};

#[test]
fn glob_metacharacters() {
    assert!(has_glob_metachar("src/*.c"));
    assert!(has_glob_metachar("a?b"));
    assert!(has_glob_metachar("[ab]"));
    assert!(!has_glob_metachar("plain/path.c"));
}

#[test]
fn join_paths_like_std() {
    assert_eq!(join_path("/root", "a.c"), "/root/a.c");
    assert_eq!(join_path("/root/", "a.c"), "/root/a.c");
    assert_eq!(join_path("/root", "/abs/a.c"), "/abs/a.c");
    assert_eq!(join_path("", "a.c"), "a.c");
    for (root, p) in [("/root", "a.c"), ("/root/", "x/y"), ("/r", "/abs")] {
        let expected = std::path::Path::new(root).join(p);
        assert_eq!(join_path(root, p), expected.to_string_lossy());
    }
}

#[test]
fn spaces_between_sources() {
    let v = vec!["a".to_string(), "b".to_string(), "c".to_string()];
    assert_eq!(join_with_spaces(&v), "a b c");
    assert_eq!(join_with_spaces(&vec![]), "");
    assert_eq!(join_with_spaces(&vec!["one".to_string()]), "one");
}

#[test]
fn stable_sort_keeps_ties_in_order() {
    let items = vec![3usize, 0, 2, 1];
    let keys = vec![5i128, 1, 1, 0];
    // keys by node: 0 -> 5, 1 -> 1, 2 -> 1, 3 -> 0
    assert_eq!(stable_sort_by_key(&items, &keys), vec![3, 2, 1, 0]);
    let items = vec![2usize, 1];
    assert_eq!(stable_sort_by_key(&items, &keys), vec![2, 1]);
}

#[test]
fn names_in_lexicographic_order() {
    let names: Vec<String> = vec!["link", "compile", "archive", "compile"].into_iter().map(String::from).collect();
    assert_eq!(order_by_name(&names), vec![2, 1, 3, 0]);
    assert!(text_less_eq("abc", "abd"));
    assert!(text_less_eq("ab", "abc"));
    assert!(!text_less_eq("b", "abc"));
    assert!(text_less_eq("same", "same"));
    assert!(text_less_eq("Z", "a"));
}
