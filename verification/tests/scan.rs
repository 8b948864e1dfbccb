use std::collections::HashSet;
use treenamer::identity::assign_identities;
use treenamer::scan::{
    build_tree, build_tree_with_options, check_directory, descends, entry_belongs,
    includes_entry, name_before, DirectoryOptions,
};
use treenamer::tree::TreeNode;

fn raw(name: &str, is_dir: bool, children: Vec<TreeNode>) -> TreeNode {
    TreeNode { id: String::new(), name: name.to_string(), is_dir, children }
}

fn names(node: &TreeNode) -> Vec<String> {
    node.children.iter().map(|c| c.name.clone()).collect()
}

fn collect_ids(node: &TreeNode, out: &mut Vec<String>) {
    out.push(node.id.clone());
    for c in &node.children {
        collect_ids(c, out);
    }
}

fn listing() -> TreeNode {
    raw(
        "project",
        false,
        vec![
            raw("b.txt", false, vec![]),
            raw(".hidden", false, vec![]),
            raw("node_modules", true, vec![raw("pkg", true, vec![])]),
            raw("zeta", true, vec![raw("deep", true, vec![raw("x.txt", false, vec![])])]),
            raw("A.txt", false, vec![]),
            raw("alpha", true, vec![raw("y.txt", false, vec![]), raw("legit", false, vec![])]),
            raw("a.txt", false, vec![]),
        ],
    )
}

#[test]
fn default_options() {
    let o = DirectoryOptions::default();
    assert_eq!(o.max_depth, 10);
    assert_eq!(o.exclude_pattern, "node_modules|.git");
    assert!(!o.follow_symlinks);
    assert!(!o.show_hidden);
}

#[test]
fn default_build_filters_and_sorts() {
    let tree = build_tree(&listing()).unwrap();
    assert_eq!(tree.name, "project");
    assert!(tree.is_dir);
    assert_eq!(names(&tree), vec!["alpha", "zeta", "A.txt", "a.txt", "b.txt"]);
    assert_eq!(names(&tree.children[0]), vec!["y.txt"]);
    assert_eq!(names(&tree.children[1]), vec!["deep"]);
    assert_eq!(names(&tree.children[1].children[0]), vec!["x.txt"]);
    assert!(!tree.children[2].is_dir);
    assert!(tree.children[2].children.is_empty());
}

#[test]
fn every_entity_gets_its_own_identity() {
    let tree = build_tree(&listing()).unwrap();
    let mut ids = Vec::new();
    collect_ids(&tree, &mut ids);
    assert_eq!(ids.len(), 9);
    for id in &ids {
        assert_eq!(id.len(), 36);
    }
    let distinct: HashSet<&String> = ids.iter().collect();
    assert_eq!(distinct.len(), ids.len());
}

#[test]
fn depth_is_cut() {
    let options = DirectoryOptions {
        max_depth: 1,
        exclude_pattern: "^$".to_string(),
        follow_symlinks: false,
        show_hidden: true,
    };
    let tree = build_tree_with_options(&listing(), &options).unwrap();
    assert_eq!(
        names(&tree),
        vec!["alpha", "node_modules", "zeta", ".hidden", "A.txt", "a.txt", "b.txt"]
    );
    for child in &tree.children {
        assert!(child.children.is_empty());
    }
    let none = DirectoryOptions { max_depth: 0, ..options };
    let tree = build_tree_with_options(&listing(), &none).unwrap();
    assert!(tree.children.is_empty());
    assert!(descends(&DirectoryOptions::default(), 9));
    assert!(!descends(&DirectoryOptions::default(), 10));
}

#[test]
fn invalid_pattern_is_rejected() {
    let options = DirectoryOptions {
        max_depth: 3,
        exclude_pattern: "(".to_string(),
        follow_symlinks: false,
        show_hidden: false,
    };
    let message = build_tree_with_options(&listing(), &options).unwrap_err();
    assert!(message.starts_with("Invalid exclude pattern: "));
    assert!(message.len() > "Invalid exclude pattern: ".len());
    assert_eq!(includes_entry(&options, "a.txt"), None);
}

#[test]
fn entries_are_included_or_not() {
    let o = DirectoryOptions::default();
    assert_eq!(includes_entry(&o, "main.rs"), Some(true));
    assert_eq!(includes_entry(&o, ".env"), Some(false));
    assert_eq!(includes_entry(&o, "node_modules"), Some(false));
    assert_eq!(includes_entry(&o, "my_node_modules_copy"), Some(false));
    assert_eq!(includes_entry(&o, "legit"), Some(false));
    assert_eq!(includes_entry(&o, "git"), Some(true));
    let shown = DirectoryOptions { show_hidden: true, exclude_pattern: "x".to_string(), ..o };
    assert_eq!(includes_entry(&shown, ".env"), Some(true));
    assert_eq!(includes_entry(&shown, ".treenamer_backup"), Some(true));
    assert_eq!(includes_entry(&o, ".treenamer_backup"), Some(false));
    assert!(entry_belongs(true, ".env", false));
    assert!(!entry_belongs(false, ".env", false));
    assert!(!entry_belongs(true, "a", true));
    assert!(entry_belongs(false, "a", false));
    assert!(entry_belongs(false, "", false));
    assert_eq!(includes_entry(&shown, "axb"), Some(false));
}

#[test]
fn names_are_ordered_by_their_characters() {
    assert!(name_before("A.txt", "a.txt"));
    assert!(!name_before("a.txt", "A.txt"));
    assert!(name_before("a", "ab"));
    assert!(!name_before("ab", "a"));
    assert!(!name_before("same", "same"));
    assert!(name_before("", "a"));
    assert!(!name_before("", ""));
    assert!(name_before("z", "é"));
}

#[test]
fn blank_identities_are_filled_in() {
    let tree = TreeNode {
        id: "keep-root".to_string(),
        name: "root".to_string(),
        is_dir: true,
        children: vec![
            raw("new.txt", false, vec![]),
            TreeNode {
                id: "keep-dir".to_string(),
                name: "dir".to_string(),
                is_dir: true,
                children: vec![raw("inner.txt", false, vec![])],
            },
        ],
    };
    let filled = assign_identities(&tree);
    assert_eq!(filled.id, "keep-root");
    assert_eq!(filled.name, "root");
    assert_eq!(names(&filled), vec!["new.txt", "dir"]);
    assert_eq!(filled.children[0].id.len(), 36);
    assert_eq!(filled.children[1].id, "keep-dir");
    assert_eq!(filled.children[1].children[0].id.len(), 36);
    assert_ne!(filled.children[0].id, filled.children[1].children[0].id);
    assert_eq!(filled.children[1].children[0].name, "inner.txt");
    assert!(!filled.children[0].is_dir);
}

#[test]
fn hidden_entries_are_listed_when_asked_for() {
    let listing = raw(
        "project",
        true,
        vec![
            raw(".treenamer_backup", true, vec![raw("17", true, vec![])]),
            raw(".config", false, vec![]),
        ],
    );
    let options = DirectoryOptions {
        max_depth: 5,
        exclude_pattern: "^$".to_string(),
        follow_symlinks: false,
        show_hidden: true,
    };
    let tree = build_tree_with_options(&listing, &options).unwrap();
    assert_eq!(names(&tree), vec![".treenamer_backup", ".config"]);
    assert_eq!(names(&tree.children[0]), vec!["17"]);
}

#[test]
fn a_listing_that_names_an_entry_twice_is_rejected() {
    let twice = raw("p", true, vec![raw("a", false, vec![]), raw("a", true, vec![])]);
    assert_eq!(
        build_tree(&twice),
        Err("Invalid directory listing: two entries of one directory bear the same name"
            .to_string())
    );
    let deep = raw(
        "p",
        true,
        vec![raw("d", true, vec![raw("x", false, vec![]), raw("x", false, vec![])])],
    );
    assert!(build_tree(&deep).is_err());
    let bad_pattern = DirectoryOptions {
        max_depth: 3,
        exclude_pattern: "(".to_string(),
        follow_symlinks: false,
        show_hidden: false,
    };
    assert!(build_tree_with_options(&twice, &bad_pattern)
        .unwrap_err()
        .starts_with("Invalid exclude pattern: "));
}

#[test]
fn test_error_handling_invalid_paths() {
    let result: Result<(), String> =
        check_directory("__this_path_definitely_doesnt_exist__", false, false);
    assert!(result.is_err(), "Parsing a non-existent directory should return an error");
    let error_msg = result.unwrap_err();
    assert!(
        error_msg.contains("exist") || error_msg.contains("find") || error_msg.contains("found"),
        "Error message should indicate the path doesn't exist: {}",
        error_msg
    );
    assert_eq!(error_msg, "Path does not exist: __this_path_definitely_doesnt_exist__");

    let result = check_directory("/tmp/treenamer_test_file.txt", true, false);
    assert!(result.is_err(), "Parsing a file as a directory should return an error");
    let error_msg = result.unwrap_err();
    assert!(
        error_msg.contains("directory")
            || error_msg.contains("folder")
            || error_msg.contains("NotADirectory"),
        "Error message should indicate the path is not a directory: {}",
        error_msg
    );
    assert_eq!(error_msg, "Path is not a directory: /tmp/treenamer_test_file.txt");
    assert_eq!(check_directory("/tmp", true, true), Ok(()));
}
