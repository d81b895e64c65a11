use fs_layout::directory::DirectoryTree;
use fs_layout::path::PathResolver;

fn setup_tree() -> DirectoryTree {
    let mut tree = DirectoryTree::new();
    tree.add_entry(0, "home", 1).unwrap();
    tree.add_entry(1, "user", 2).unwrap();
    tree.add_entry(2, "docs", 3).unwrap();
    tree.add_entry(2, "file.txt", 4).unwrap();
    tree
}

#[test]
fn resolve_root() {
    let tree = setup_tree();
    let resolver = PathResolver::new(&tree);
    assert_eq!(resolver.resolve("/"), Ok(0));
}

#[test]
fn resolve_deep_path() {
    let tree = setup_tree();
    let resolver = PathResolver::new(&tree);
    assert_eq!(resolver.resolve("/home/user/docs"), Ok(3));
}

#[test]
fn resolve_file() {
    let tree = setup_tree();
    let resolver = PathResolver::new(&tree);
    assert_eq!(resolver.resolve("/home/user/file.txt"), Ok(4));
}

#[test]
fn resolve_nonexistent() {
    let tree = setup_tree();
    let resolver = PathResolver::new(&tree);
    assert!(resolver.resolve("/nope").is_err());
}

#[test]
fn resolve_relative() {
    let tree = setup_tree();
    let resolver = PathResolver::new(&tree);
    assert_eq!(resolver.resolve_relative(2, "docs"), Ok(3));
}

#[test]
fn resolve_parent() {
    let tree = setup_tree();
    let resolver = PathResolver::new(&tree);
    assert_eq!(resolver.resolve_relative(2, ".."), Ok(1));
}

#[test]
fn basename_test() {
    assert_eq!(PathResolver::basename("/home/user/file.txt"), "file.txt");
    assert_eq!(PathResolver::basename("/home"), "home");
}

#[test]
fn dirname_test() {
    assert_eq!(PathResolver::dirname("/home/user/file.txt"), "/home/user");
    assert_eq!(PathResolver::dirname("/home"), "/");
}

#[test]
fn split_path_test() {
    assert_eq!(PathResolver::split_path("/a/b/c"), vec!["a", "b", "c"]);
    assert_eq!(PathResolver::split_path("/"), Vec::<&str>::new());
}

#[test]
fn split_path_skips_empty_pieces() {
    assert_eq!(PathResolver::split_path("//a//b/"), vec!["a", "b"]);
    assert_eq!(PathResolver::split_path("a/b"), vec!["a", "b"]);
    assert_eq!(PathResolver::split_path(""), Vec::<&str>::new());
    assert_eq!(PathResolver::split_path("/é/ü x/"), vec!["é", "ü x"]);
}

#[test]
fn resolve_error_messages() {
    let tree = setup_tree();
    let resolver = PathResolver::new(&tree);
    assert_eq!(resolver.resolve("/home/nope/docs"), Err("Path component 'nope' not found".to_string()));
    assert_eq!(resolver.resolve_relative(2, "docs/missing"), Err("'missing' not found".to_string()));
    assert_eq!(resolver.resolve_relative(99, ".."), Err("No parent".to_string()));
}

#[test]
fn resolve_relative_dots() {
    let tree = setup_tree();
    let resolver = PathResolver::new(&tree);
    assert_eq!(resolver.resolve_relative(3, "../../user/./file.txt"), Ok(4));
    assert_eq!(resolver.resolve_relative(2, "."), Ok(2));
    assert_eq!(resolver.resolve_relative(2, ""), Ok(2));
    assert_eq!(resolver.resolve_relative(0, "home/user"), Ok(2));
    assert_eq!(resolver.resolve("/home/./user/.."), Ok(1));
    assert_eq!(resolver.resolve("//home//user/"), Ok(2));
}

#[test]
fn resolve_added_name() {
    let mut tree = setup_tree();
    tree.add_entry(3, "notes", 7).unwrap();
    let resolver = PathResolver::new(&tree);
    assert_eq!(resolver.resolve_relative(3, "notes"), Ok(7));
    assert_eq!(resolver.resolve("/home/user/docs/notes"), Ok(7));
    assert_eq!(resolver.resolve_relative(7, ".."), Ok(3));
}

#[test]
fn dirname_and_basename_edges() {
    assert_eq!(PathResolver::basename("/"), "");
    assert_eq!(PathResolver::basename("/a/b/"), "b");
    assert_eq!(PathResolver::dirname("/"), "/");
    assert_eq!(PathResolver::dirname("a/b/c/"), "/a/b");
    assert_eq!(PathResolver::dirname("//x//y//z"), "/x/y");
}
