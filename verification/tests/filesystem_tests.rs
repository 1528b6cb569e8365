use threadkit::filesystem::{
    child_index, find_child_by_name, same_text, split_path, FSError, Filesystem, Node,
};

fn name_of(node: &Node) -> &str {
    match node {
        Node::Dir(d) => d.name.as_str(),
        Node::File(f) => f.name.as_str(),
    }
}

fn sample() -> Filesystem {
    let mut fs = Filesystem::new();
    for i in 0..3 {
        let name = format!("dir{}", i);
        fs.mkdir("/", &name).unwrap();
        fs.mkdir(&format!("/dir{}", i), "child1").unwrap();
        fs.create_file(&format!("/dir{}", i), "file1").unwrap();
    }
    fs
}

#[test]
fn a_path_is_split_at_its_slashes() {
    assert_eq!(split_path("/a//b/"), vec!["a", "b"]);
    assert_eq!(split_path("a/b"), vec!["a", "b"]);
    assert_eq!(split_path(""), Vec::<&str>::new());
    assert_eq!(split_path("///"), Vec::<&str>::new());
    assert_eq!(split_path("é/ü"), vec!["é", "ü"]);
    assert!(same_text("abc", "abc"));
    assert!(!same_text("abc", "abd"));
    assert!(!same_text("abc", "ab"));
}

#[test]
fn a_new_file_system_holds_only_its_root() {
    let fs = Filesystem::new();
    match fs.get("/").unwrap() {
        Node::Dir(root) => {
            assert_eq!(root.name, "");
            assert!(root.children.is_empty());
        },
        Node::File(_) => panic!("the root is a directory"),
    }
    assert!(matches!(fs.get("/nothing"), Err(FSError::NotFound)));
}

#[test]
fn directories_and_files_are_made_where_the_path_leads() {
    let mut fs = sample();
    assert_eq!(name_of(fs.get("/dir1/child1").unwrap()), "child1");
    assert!(matches!(fs.get("/dir1/file1").unwrap(), Node::File(_)));
    assert!(matches!(fs.get("dir2//child1/").unwrap(), Node::Dir(_)));
    let made = fs.mkdir("/dir0/child1", "deep").unwrap();
    assert_eq!(made.name, "deep");
    assert!(made.children.is_empty());
    let file = fs.create_file("/dir0/child1/deep", "leaf").unwrap();
    assert_eq!(file.name, "leaf");
    assert!(file.content.is_empty());
    file.content.push(7);
    match fs.get("/dir0/child1/deep/leaf").unwrap() {
        Node::File(f) => assert_eq!(f.content, vec![7]),
        Node::Dir(_) => panic!("a file was made"),
    }
    match fs.get("/").unwrap() {
        Node::Dir(root) => {
            assert_eq!(root.children.len(), 3);
            assert_eq!(child_index(root, "dir2"), Some(2));
            assert_eq!(child_index(root, "dir9"), None);
            assert_eq!(name_of(find_child_by_name(root, "dir1").unwrap()), "dir1");
            assert!(find_child_by_name(root, "child1").is_none());
        },
        Node::File(_) => panic!("the root is a directory"),
    }
}

#[test]
fn making_is_refused_for_each_of_its_reasons() {
    let mut fs = sample();
    assert!(matches!(fs.mkdir("/dir0", "child1"), Err(FSError::Duplicate)));
    assert!(matches!(fs.create_file("/dir0", "child1"), Err(FSError::Duplicate)));
    assert!(matches!(fs.mkdir("/dir0/file1", "x"), Err(FSError::NotADir)));
    assert!(matches!(fs.create_file("/dir0/file1/y", "x"), Err(FSError::NotADir)));
    assert!(matches!(fs.mkdir("/dir7", "x"), Err(FSError::NotFound)));
    assert!(matches!(fs.create_file("/dir0/none", "x"), Err(FSError::NotFound)));
    assert!(matches!(fs.get("/dir0/file1/x"), Err(FSError::NotADir)));
    assert!(matches!(fs.get_mut("/dir0/x/y"), Err(FSError::NotFound)));
}

#[test]
fn a_node_is_changed_through_get_mut() {
    let mut fs = sample();
    if let Node::Dir(d) = fs.get_mut("/dir2/child1").unwrap() {
        d.name = "dir2 found".to_string();
    }
    assert!(matches!(fs.get("/dir2/child1"), Err(FSError::NotFound)));
    assert_eq!(name_of(fs.get("/dir2/dir2 found").unwrap()), "dir2 found");
}

#[test]
fn touch_changes_nothing_but_the_time() {
    let mut fs = sample();
    let before = match fs.get("/dir1/file1").unwrap() {
        Node::File(f) => f.modified,
        Node::Dir(_) => panic!("a file was made"),
    };
    assert!(matches!(fs.touch("/dir1/file1"), Ok(())));
    assert!(matches!(fs.touch("/dir1"), Ok(())));
    assert!(matches!(fs.touch("/dir1/none"), Err(FSError::NotFound)));
    match fs.get("/dir1/file1").unwrap() {
        Node::File(f) => {
            assert!(f.modified >= before);
            assert_eq!(f.name, "file1");
        },
        Node::Dir(_) => panic!("a file was made"),
    }
}

#[test]
fn delete_removes_files_and_empty_directories() {
    let mut fs = sample();
    assert!(matches!(fs.delete("/dir0"), Err(FSError::DirNotEmpty)));
    assert!(matches!(fs.delete("dir0"), Err(FSError::NotFound)));
    assert!(matches!(fs.delete("/dir0/none"), Err(FSError::NotFound)));
    assert!(matches!(fs.delete("/dir0/file1/x"), Err(FSError::NotADir)));
    assert!(matches!(fs.delete("/dir9/x"), Err(FSError::NotFound)));
    assert!(matches!(fs.delete("/dir0/child1/"), Err(FSError::NotFound)));
    let removed = fs.delete("/dir0/child1").ok().unwrap();
    assert_eq!(name_of(&removed), "child1");
    assert!(matches!(fs.get("/dir0/child1"), Err(FSError::NotFound)));
    let file = fs.delete("/dir0/file1").ok().unwrap();
    assert!(matches!(file, Node::File(_)));
    let dir = fs.delete("/dir0").ok().unwrap();
    assert_eq!(name_of(&dir), "dir0");
    match fs.get("/").unwrap() {
        Node::Dir(root) => assert_eq!(root.children.len(), 2),
        Node::File(_) => panic!("the root is a directory"),
    }
}

#[test]
fn walk_visits_each_directory_before_what_it_holds() {
    let fs = sample();
    let seen = std::cell::RefCell::new(Vec::new());
    fs.walk(|path, node| {
        seen.borrow_mut().push((path.to_string(), matches!(node, Node::Dir(_))));
    });
    let seen = seen.into_inner();
    assert_eq!(seen.len(), 10);
    assert_eq!(seen[0], ("".to_string(), true));
    assert_eq!(seen[1], ("/dir0".to_string(), true));
    assert_eq!(seen[2], ("/dir0/child1".to_string(), true));
    assert_eq!(seen[3], ("/dir0/file1".to_string(), false));
    assert_eq!(seen[4], ("/dir1".to_string(), true));
    assert_eq!(seen[9], ("/dir2/file1".to_string(), false));
}

#[test]
fn find_tells_the_first_query_that_a_node_meets() {
    let fs = sample();
    let found = fs.find(&["name:child1", "type:file"]);
    assert_eq!(found.len(), 6);
    assert_eq!(found[0].path, "/dir0/child1");
    assert_eq!(found[0].query, "name:child1");
    assert_eq!(found[0].name, "child1");
    assert_eq!(found[1].path, "/dir0/file1");
    assert_eq!(found[1].query, "type:file");
    assert_eq!(found[5].path, "/dir2/file1");
    let dirs = fs.find(&["type:dir"]);
    assert_eq!(dirs.len(), 7);
    assert_eq!(dirs[0].path, "");
    assert_eq!(dirs[0].name, "");
    let parts = fs.find(&["partname:ir1", "nocolon", "type:none", "name:file1"]);
    let paths: Vec<&str> = parts.iter().map(|m| m.path.as_str()).collect();
    assert_eq!(paths, vec!["/dir0/file1", "/dir1", "/dir1/file1", "/dir2/file1"]);
    assert_eq!(parts[1].query, "partname:ir1");
    assert_eq!(fs.find(&[]).len(), 0);
    assert_eq!(fs.find(&["partname:"]).len(), 10);
    assert_eq!(fs.find(&["name:a:b"]).len(), 0);
}

#[test]
fn queries_are_matched_by_key() {
    let fs = sample();
    let dir = fs.get("/dir1").unwrap();
    let file = fs.get("/dir1/file1").unwrap();
    assert!(fs.matches_query(dir, "type", "dir"));
    assert!(!fs.matches_query(dir, "type", "file"));
    assert!(fs.matches_query(file, "type", "file"));
    assert!(fs.matches_query(file, "name", "file1"));
    assert!(!fs.matches_query(file, "name", "file"));
    assert!(fs.matches_query(file, "partname", "ile"));
    assert!(!fs.matches_query(file, "partname", "dir"));
    assert!(!fs.matches_query(file, "size", "file1"));
}
