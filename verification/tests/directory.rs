use fs_layout::directory::DirectoryTree;

#[test]
fn root_exists() {
    let tree = DirectoryTree::new();
    assert_eq!(tree.list(0).len(), 2); // . and ..
}

#[test]
fn add_entry() {
    let mut tree = DirectoryTree::new();
    tree.add_entry(0, "foo", 1).unwrap();
    assert_eq!(tree.lookup(0, "foo"), Some(1));
}

#[test]
fn duplicate_entry_fails() {
    let mut tree = DirectoryTree::new();
    tree.add_entry(0, "foo", 1).unwrap();
    assert!(tree.add_entry(0, "foo", 2).is_err());
}

#[test]
fn remove_entry() {
    let mut tree = DirectoryTree::new();
    tree.add_entry(0, "foo", 1).unwrap();
    let ino = tree.remove_entry(0, "foo").unwrap();
    assert_eq!(ino, 1);
    assert_eq!(tree.lookup(0, "foo"), None);
}

#[test]
fn nested_directories() {
    let mut tree = DirectoryTree::new();
    tree.add_entry(0, "dir1", 1).unwrap();
    tree.add_entry(1, "file1", 2).unwrap();
    assert_eq!(tree.lookup(1, "file1"), Some(2));
}

#[test]
fn invalid_names() {
    let mut tree = DirectoryTree::new();
    assert!(tree.add_entry(0, "", 1).is_err());
    assert!(tree.add_entry(0, ".", 1).is_err());
    assert!(tree.add_entry(0, "..", 1).is_err());
}

#[test]
fn is_empty_dir() {
    let mut tree = DirectoryTree::new();
    tree.add_entry(0, "dir1", 1).unwrap();
    assert!(tree.is_empty_dir(1)); // only . and ..
    tree.add_entry(1, "file1", 2).unwrap();
    assert!(!tree.is_empty_dir(1));
}

#[test]
fn error_messages() {
    let mut tree = DirectoryTree::new();
    assert_eq!(tree.add_entry(0, "", 1), Err("Invalid name: ''".to_string()));
    assert_eq!(tree.add_entry(0, "..", 1), Err("Invalid name: '..'".to_string()));
    tree.add_entry(0, "foo", 1).unwrap();
    assert_eq!(tree.add_entry(0, "foo", 2), Err("Entry 'foo' already exists".to_string()));
    assert_eq!(tree.remove_entry(42, "foo"), Err("Parent not found".to_string()));
    assert_eq!(tree.remove_entry(0, "bar"), Err("Entry not found".to_string()));
    assert_eq!(tree.lookup(0, "foo"), Some(1));
}

#[test]
fn root_listing() {
    let tree = DirectoryTree::default();
    let names: Vec<(String, u32)> = tree.list(0).iter().map(|e| (e.name.clone(), e.ino)).collect();
    assert_eq!(names, vec![(".".to_string(), 0), ("..".to_string(), 0)]);
    assert_eq!(tree.lookup(0, "."), Some(0));
    assert_eq!(tree.lookup(0, ".."), Some(0));
    assert!(tree.is_empty_dir(0));
}

#[test]
fn child_directory_listing() {
    let mut tree = DirectoryTree::new();
    tree.add_entry(0, "dir1", 5).unwrap();
    assert_eq!(tree.lookup(5, "."), Some(5));
    assert_eq!(tree.lookup(5, ".."), Some(0));
    let names: Vec<String> = tree.list(0).iter().map(|e| e.name.clone()).collect();
    assert_eq!(names, vec![".".to_string(), "..".to_string(), "dir1".to_string()]);
}

#[test]
fn unknown_directory() {
    let mut tree = DirectoryTree::new();
    assert!(tree.list(9).is_empty());
    assert!(tree.is_empty_dir(9));
    assert_eq!(tree.lookup(9, "x"), None);
    tree.add_entry(9, "x", 10).unwrap();
    assert_eq!(tree.lookup(9, "x"), Some(10));
    assert_eq!(tree.list(9).len(), 1);
}

#[test]
fn remove_then_add_again() {
    let mut tree = DirectoryTree::new();
    tree.add_entry(0, "a", 1).unwrap();
    tree.add_entry(0, "b", 2).unwrap();
    assert_eq!(tree.remove_entry(0, "a"), Ok(1));
    assert_eq!(tree.lookup(0, "b"), Some(2));
    assert_eq!(tree.lookup(0, "a"), None);
    tree.add_entry(0, "a", 3).unwrap();
    assert_eq!(tree.lookup(0, "a"), Some(3));
    assert_eq!(tree.list(0).len(), 4);
}

#[test]
fn existing_child_listing_is_kept() {
    let mut tree = DirectoryTree::new();
    tree.add_entry(0, "d", 1).unwrap();
    tree.add_entry(1, "f", 2).unwrap();
    tree.add_entry(0, "link", 1).unwrap();
    assert_eq!(tree.lookup(1, "f"), Some(2));
    assert_eq!(tree.list(1).len(), 3);
}

#[test]
fn empty_dir_means_only_dot_entries() {
    let mut tree = DirectoryTree::new();
    assert!(tree.is_empty_dir(9));
    tree.add_entry(9, "x", 10).unwrap();
    assert!(!tree.is_empty_dir(9));
    assert!(tree.is_empty_dir(10));
    tree.add_entry(0, "d", 1).unwrap();
    assert_eq!(tree.remove_entry(1, "."), Ok(1));
    assert!(tree.is_empty_dir(1));
    tree.add_entry(1, "f", 2).unwrap();
    assert!(!tree.is_empty_dir(1));
    assert_eq!(tree.remove_entry(1, "f"), Ok(2));
    assert!(tree.is_empty_dir(1));
}
