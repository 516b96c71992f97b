use kernel_core::filesystem::{
    change_directory, create_directory, create_file, get_current_path, list_current_directory,
    list_directory, read_file, write_file, FSNode,
};

fn names(listing: &Vec<(String, bool)>) -> Vec<(&str, bool)> {
    listing.iter().map(|(name, is_dir)| (name.as_str(), *is_dir)).collect()
}

#[test]
fn new_root_lists_nothing() {
    let root = FSNode::new_directory();
    assert!(list_directory(&root).is_empty());
    assert!(list_current_directory(&root, &Vec::new()).is_empty());
}

#[test]
fn nested_directories_and_cursor() {
    let mut root = FSNode::new_directory();
    let mut cursor: Vec<String> = Vec::new();
    assert_eq!(create_directory(&mut root, "a/b"), Ok(()));
    assert_eq!(change_directory(&root, &mut cursor, "a"), Ok(()));
    assert_eq!(change_directory(&root, &mut cursor, "b"), Ok(()));
    assert_eq!(get_current_path(&cursor), vec![String::from("a"), String::from("b")]);
}

#[test]
fn empty_file_then_overwrite() {
    let mut root = FSNode::new_directory();
    let cursor: Vec<String> = Vec::new();
    assert_eq!(create_file(&mut root, &cursor, "note.txt", None), Ok(()));
    assert_eq!(read_file(&root, "note.txt"), Ok(Vec::new()));
    assert_eq!(write_file(&mut root, "note.txt", b"hi", false), Ok(()));
    assert_eq!(read_file(&root, "note.txt"), Ok(b"hi".to_vec()));
}

#[test]
fn write_then_append_doubles_content() {
    let mut root = FSNode::new_directory();
    assert_eq!(write_file(&mut root, "log", b"abc", false), Ok(()));
    assert_eq!(write_file(&mut root, "log", b"abc", true), Ok(()));
    assert_eq!(read_file(&root, "log"), Ok(b"abcabc".to_vec()));
}

#[test]
fn parent_of_root_fails_and_keeps_cursor() {
    let root = FSNode::new_directory();
    let mut cursor: Vec<String> = Vec::new();
    assert_eq!(change_directory(&root, &mut cursor, ".."), Err("Already at root directory"));
    assert!(cursor.is_empty());
}

#[test]
fn listing_is_sorted_by_name() {
    let mut root = FSNode::new_directory();
    let cursor: Vec<String> = Vec::new();
    assert_eq!(create_directory(&mut root, "zeta"), Ok(()));
    assert_eq!(create_file(&mut root, &cursor, "alpha", None), Ok(()));
    assert_eq!(create_directory(&mut root, "Mid"), Ok(()));
    assert_eq!(write_file(&mut root, "beta", b"x", false), Ok(()));
    let listing = list_directory(&root);
    assert_eq!(
        names(&listing),
        vec![("Mid", true), ("alpha", false), ("beta", false), ("zeta", true)]
    );
}

fn file(content: &[u8]) -> FSNode {
    FSNode::File { content: content.to_vec(), created: 0, modified: 0 }
}

fn strings(parts: &[&str]) -> Vec<String> {
    parts.iter().map(|s| String::from(*s)).collect()
}

#[test]
fn create_directory_makes_missing_parents() {
    let mut root = FSNode::new_directory();
    assert_eq!(create_directory(&mut root, "a/b/c"), Ok(()));
    assert_eq!(names(&list_directory(&root)), vec![("a", true)]);
    assert_eq!(names(&list_current_directory(&root, &strings(&["a"]))), vec![("b", true)]);
    assert_eq!(names(&list_current_directory(&root, &strings(&["a", "b"]))), vec![("c", true)]);
    assert!(list_current_directory(&root, &strings(&["a", "b", "c"])).is_empty());
}

#[test]
fn create_directory_ignores_extra_separators() {
    let mut root = FSNode::new_directory();
    assert_eq!(create_directory(&mut root, "//x///y/"), Ok(()));
    assert_eq!(names(&list_directory(&root)), vec![("x", true)]);
    assert_eq!(names(&list_current_directory(&root, &strings(&["x"]))), vec![("y", true)]);
    assert_eq!(create_directory(&mut root, ""), Ok(()));
    assert_eq!(create_directory(&mut root, "/"), Ok(()));
    assert_eq!(names(&list_directory(&root)), vec![("x", true)]);
}

#[test]
fn create_directory_again_keeps_what_is_there() {
    let mut root = FSNode::new_directory();
    let cursor: Vec<String> = Vec::new();
    assert_eq!(create_directory(&mut root, "a/b"), Ok(()));
    assert_eq!(create_file(&mut root, &cursor, "a/b/f", Some(b"keep".to_vec())), Ok(()));
    assert_eq!(create_file(&mut root, &cursor, "a/g", Some(b"too".to_vec())), Ok(()));
    assert_eq!(create_directory(&mut root, "a/b"), Ok(()));
    assert_eq!(create_directory(&mut root, "a"), Ok(()));
    assert_eq!(names(&list_current_directory(&root, &strings(&["a"]))), vec![("b", true), ("g", false)]);
    assert_eq!(names(&list_current_directory(&root, &strings(&["a", "b"]))), vec![("f", false)]);
}

#[test]
fn create_directory_fails_through_a_file() {
    let mut root = FSNode::new_directory();
    assert_eq!(write_file(&mut root, "f", b"data", false), Ok(()));
    assert_eq!(create_directory(&mut root, "f/sub"), Err("Not a directory"));
    assert_eq!(create_directory(&mut root, "f/sub/deeper"), Err("Not a directory"));
    assert_eq!(read_file(&root, "f"), Ok(b"data".to_vec()));
    assert_eq!(names(&list_directory(&root)), vec![("f", false)]);
}

#[test]
fn create_directory_on_a_file_root() {
    let mut root = file(b"x");
    assert_eq!(create_directory(&mut root, "a"), Err("Not a directory"));
    assert_eq!(create_directory(&mut root, ""), Err("Not a directory"));
}

#[test]
fn read_file_errors() {
    let mut root = FSNode::new_directory();
    assert_eq!(read_file(&root, "nothing"), Err("File not found"));
    assert_eq!(create_directory(&mut root, "dir"), Ok(()));
    assert_eq!(read_file(&root, "dir"), Err("File not found"));
    assert_eq!(read_file(&file(b"x"), "x"), Err("Root is not a directory"));
}

#[test]
fn read_file_looks_in_the_root_only() {
    let mut root = FSNode::new_directory();
    let cursor = strings(&["d"]);
    assert_eq!(create_directory(&mut root, "d"), Ok(()));
    assert_eq!(create_file(&mut root, &cursor, "inner", Some(b"1".to_vec())), Ok(()));
    assert_eq!(read_file(&root, "inner"), Err("File not found"));
    assert_eq!(read_file(&root, "d/inner"), Err("File not found"));
}

#[test]
fn write_file_takes_the_name_as_it_stands() {
    let mut root = FSNode::new_directory();
    assert_eq!(write_file(&mut root, "a/b", b"flat", false), Ok(()));
    assert_eq!(names(&list_directory(&root)), vec![("a/b", false)]);
    assert_eq!(read_file(&root, "a/b"), Ok(b"flat".to_vec()));
}

#[test]
fn write_file_append_creates_and_extends() {
    let mut root = FSNode::new_directory();
    assert_eq!(write_file(&mut root, "log", b"one", true), Ok(()));
    assert_eq!(read_file(&root, "log"), Ok(b"one".to_vec()));
    assert_eq!(write_file(&mut root, "log", b"two", true), Ok(()));
    assert_eq!(read_file(&root, "log"), Ok(b"onetwo".to_vec()));
    assert_eq!(write_file(&mut root, "log", b"", true), Ok(()));
    assert_eq!(read_file(&root, "log"), Ok(b"onetwo".to_vec()));
    assert_eq!(write_file(&mut root, "log", b"new", false), Ok(()));
    assert_eq!(read_file(&root, "log"), Ok(b"new".to_vec()));
}

#[test]
fn write_file_replaces_a_directory() {
    let mut root = FSNode::new_directory();
    assert_eq!(create_directory(&mut root, "d/sub"), Ok(()));
    assert_eq!(write_file(&mut root, "d", b"now a file", true), Ok(()));
    assert_eq!(read_file(&root, "d"), Ok(b"now a file".to_vec()));
    assert_eq!(names(&list_directory(&root)), vec![("d", false)]);
}

#[test]
fn write_file_on_a_file_root() {
    let mut root = file(b"x");
    assert_eq!(write_file(&mut root, "a", b"1", false), Err("Root is not a directory"));
    assert_eq!(write_file(&mut root, "a", b"1", true), Err("Root is not a directory"));
}

#[test]
fn create_file_in_the_current_directory() {
    let mut root = FSNode::new_directory();
    assert_eq!(create_directory(&mut root, "a/b"), Ok(()));
    let cursor = strings(&["a", "b"]);
    assert_eq!(create_file(&mut root, &cursor, "x/y/f.txt", Some(b"deep".to_vec())), Ok(()));
    assert_eq!(names(&list_current_directory(&root, &cursor)), vec![("x", true)]);
    let inner = strings(&["a", "b", "x", "y"]);
    assert_eq!(names(&list_current_directory(&root, &inner)), vec![("f.txt", false)]);
    assert!(list_directory(&root).len() == 1);
}

#[test]
fn create_file_overwrites() {
    let mut root = FSNode::new_directory();
    let cursor: Vec<String> = Vec::new();
    assert_eq!(create_file(&mut root, &cursor, "f", Some(b"old".to_vec())), Ok(()));
    assert_eq!(create_file(&mut root, &cursor, "f", Some(b"new".to_vec())), Ok(()));
    assert_eq!(read_file(&root, "f"), Ok(b"new".to_vec()));
    assert_eq!(create_directory(&mut root, "d/e"), Ok(()));
    assert_eq!(create_file(&mut root, &cursor, "d", None), Ok(()));
    assert_eq!(read_file(&root, "d"), Ok(Vec::new()));
}

#[test]
fn create_file_errors() {
    let mut root = FSNode::new_directory();
    let top: Vec<String> = Vec::new();
    assert_eq!(create_file(&mut root, &top, "", None), Err("Invalid path"));
    assert_eq!(create_file(&mut root, &top, "//", None), Err("Invalid path"));
    assert_eq!(create_file(&mut root, &top, "f", None), Ok(()));
    assert_eq!(create_file(&mut root, &top, "f/g", None), Err("Parent is not a directory"));
    assert_eq!(create_file(&mut root, &top, "f/g/h", None), Err("Path component is not a directory"));
    assert_eq!(create_file(&mut root, &strings(&["gone"]), "x", None), Err("Current directory not found"));
    assert_eq!(create_file(&mut root, &strings(&["gone"]), "", None), Err("Current directory not found"));
    assert_eq!(create_file(&mut root, &strings(&["f"]), "x", None), Err("Parent is not a directory"));
    assert_eq!(create_file(&mut root, &strings(&["f"]), "", None), Err("Invalid path"));
    assert_eq!(create_file(&mut root, &strings(&["f", "g"]), "x", None), Err("Current path is not a directory"));
    assert_eq!(names(&list_directory(&root)), vec![("f", false)]);
    let mut not_a_root = file(b"");
    assert_eq!(create_file(&mut not_a_root, &top, "x", None), Err("Parent is not a directory"));
}

#[test]
fn change_directory_moves_one_name_at_a_time() {
    let mut root = FSNode::new_directory();
    let mut cursor: Vec<String> = Vec::new();
    assert_eq!(create_directory(&mut root, "a/b"), Ok(()));
    assert_eq!(change_directory(&root, &mut cursor, "a/b"), Err("Directory not found"));
    assert!(cursor.is_empty());
    assert_eq!(change_directory(&root, &mut cursor, "a"), Ok(()));
    assert_eq!(change_directory(&root, &mut cursor, "b"), Ok(()));
    assert_eq!(change_directory(&root, &mut cursor, ".."), Ok(()));
    assert_eq!(cursor, strings(&["a"]));
    assert_eq!(change_directory(&root, &mut cursor, "b"), Ok(()));
    assert_eq!(change_directory(&root, &mut cursor, "/"), Ok(()));
    assert!(cursor.is_empty());
    assert_eq!(change_directory(&root, &mut cursor, "/"), Ok(()));
}

#[test]
fn change_directory_errors() {
    let mut root = FSNode::new_directory();
    assert_eq!(create_directory(&mut root, "d"), Ok(()));
    assert_eq!(write_file(&mut root, "f", b"", false), Ok(()));
    let mut cursor: Vec<String> = Vec::new();
    assert_eq!(change_directory(&root, &mut cursor, "f"), Err("Directory not found"));
    assert_eq!(change_directory(&root, &mut cursor, "none"), Err("Directory not found"));
    assert_eq!(change_directory(&root, &mut cursor, ""), Err("Directory not found"));
    let mut stale = strings(&["gone"]);
    assert_eq!(change_directory(&root, &mut stale, "x"), Err("Path not found"));
    assert_eq!(stale, strings(&["gone"]));
    let mut at_file = strings(&["f"]);
    assert_eq!(change_directory(&root, &mut at_file, "x"), Err("Not a directory"));
    let mut through_file = strings(&["f", "g"]);
    assert_eq!(change_directory(&root, &mut through_file, "x"), Err("Not a directory"));
    assert_eq!(change_directory(&root, &mut through_file, ".."), Ok(()));
    assert_eq!(through_file, strings(&["f"]));
}

#[test]
fn stale_cursor_lists_nothing() {
    let mut root = FSNode::new_directory();
    let mut cursor: Vec<String> = Vec::new();
    assert_eq!(create_directory(&mut root, "d/e"), Ok(()));
    assert_eq!(change_directory(&root, &mut cursor, "d"), Ok(()));
    assert_eq!(write_file(&mut root, "d", b"gone", false), Ok(()));
    assert!(list_current_directory(&root, &cursor).is_empty());
    assert_eq!(change_directory(&root, &mut cursor, "e"), Err("Not a directory"));
    assert_eq!(create_file(&mut root, &cursor, "x", None), Err("Parent is not a directory"));
    assert_eq!(cursor, strings(&["d"]));
}

#[test]
fn get_current_path_copies_the_cursor() {
    let cursor = strings(&["a", "b"]);
    let copy = get_current_path(&cursor);
    assert_eq!(copy, cursor);
    assert!(get_current_path(&Vec::new()).is_empty());
}

#[test]
fn names_with_other_alphabets_sort_by_bytes() {
    let mut root = FSNode::new_directory();
    for name in ["é", "z", "a", "日本", "Z", "~"].iter() {
        assert_eq!(write_file(&mut root, name, b"", false), Ok(()));
    }
    let listing = list_directory(&root);
    let mut expected = vec!["é", "z", "a", "日本", "Z", "~"];
    expected.sort();
    let got: Vec<&str> = listing.iter().map(|(name, _)| name.as_str()).collect();
    assert_eq!(got, expected);
}

#[test]
fn many_entries_stay_sorted_and_unique() {
    let mut root = FSNode::new_directory();
    let mut expected: Vec<String> = Vec::new();
    for i in 0..50 {
        let name = format!("n{}", (i * 37) % 50);
        assert_eq!(write_file(&mut root, &name, b"a", false), Ok(()));
        assert_eq!(write_file(&mut root, &name, b"b", true), Ok(()));
        expected.push(name);
    }
    expected.sort();
    let listing = list_directory(&root);
    let got: Vec<String> = listing.iter().map(|(name, _)| name.clone()).collect();
    assert_eq!(got, expected);
    assert_eq!(read_file(&root, "n7"), Ok(b"ab".to_vec()));
}

#[test]
fn list_directory_of_a_file_is_empty() {
    assert!(list_directory(&file(b"x")).is_empty());
    assert!(list_current_directory(&file(b"x"), &strings(&["a"])).is_empty());
}

#[test]
fn create_directory_at_the_name_of_a_file_fails_and_leaves_the_file() {
    let mut root = FSNode::new_directory();
    assert_eq!(write_file(&mut root, "f", b"x", false), Ok(()));
    assert_eq!(create_directory(&mut root, "f"), Err("Not a directory"));
    assert_eq!(read_file(&root, "f"), Ok(vec![120]));
    assert_eq!(create_directory(&mut root, "d/e"), Ok(()));
    assert_eq!(write_file(&mut root, "g", b"y", false), Ok(()));
    let cursor = vec![String::from("d")];
    assert_eq!(create_file(&mut root, &cursor, "e/h", Some(b"z".to_vec())), Ok(()));
    assert_eq!(create_directory(&mut root, "d/e/h"), Err("Not a directory"));
    assert_eq!(create_directory(&mut root, "d/e"), Ok(()));
    assert_eq!(names(&list_directory(&root)), vec![("d", true), ("f", false), ("g", false)]);
}
