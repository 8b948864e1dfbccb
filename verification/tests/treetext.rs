use std::collections::HashSet;
use treenamer::tree::TreeNode;
use treenamer::treetext::{format_tree, parse_tree_text, parse_tree_to_entities, render_tree};

fn node(name: &str, is_dir: bool, children: Vec<TreeNode>) -> TreeNode {
    TreeNode { id: String::new(), name: name.to_string(), is_dir, children }
}

fn listing(pairs: &[(&str, bool)]) -> Vec<(String, bool)> {
    pairs.iter().map(|(p, d)| (p.to_string(), *d)).collect()
}

fn sample() -> TreeNode {
    node(
        "root",
        true,
        vec![
            node(
                "dir1",
                true,
                vec![node("file1.txt", false, vec![]), node("file2.txt", false, vec![])],
            ),
            node("dir2", true, vec![node("subdir", true, vec![node("file3.txt", false, vec![])])]),
        ],
    )
}

const SAMPLE_TEXT: &str = "root/\n├── dir1/\n│   ├── file1.txt\n│   └── file2.txt\n└── dir2/\n    └── subdir/\n        └── file3.txt\n";

#[test]
fn renders_connectors_and_indentation() {
    assert_eq!(render_tree(&sample()), SAMPLE_TEXT);
}

#[test]
fn format_tree_appends_to_the_result() {
    let nodes = vec![node("a", true, vec![node("b.txt", false, vec![])]), node("c.txt", false, vec![])];
    let mut out = String::from(">>");
    format_tree(&nodes, &mut out, "  ", false);
    assert_eq!(out, ">>  ├── a/\n  │   └── b.txt\n  └── c.txt\n");
    let mut out = String::new();
    format_tree(&Vec::new(), &mut out, "", true);
    assert_eq!(out, "");
}

#[test]
fn file_children_are_not_rendered() {
    let odd = node("root", true, vec![node("f.txt", false, vec![node("ghost", false, vec![])])]);
    assert_eq!(render_tree(&odd), "root/\n└── f.txt\n");
}

#[test]
fn parses_what_it_renders() {
    assert_eq!(
        parse_tree_text(SAMPLE_TEXT),
        Ok(listing(&[
            ("root", true),
            ("root/dir1", true),
            ("root/dir1/file1.txt", false),
            ("root/dir1/file2.txt", false),
            ("root/dir2", true),
            ("root/dir2/subdir", true),
            ("root/dir2/subdir/file3.txt", false),
        ]))
    );
}

#[test]
fn parses_plain_indentation_without_connectors() {
    let text = "  top//  \nplain.txt\n    deeper/\n        leaf\nback/";
    assert_eq!(
        parse_tree_text(text),
        Ok(listing(&[
            ("top", true),
            ("top/plain.txt", false),
            ("top/plain.txt/deeper", true),
            ("top/plain.txt/deeper/leaf", false),
            ("top/back", true),
        ]))
    );
}

#[test]
fn blank_lines_are_skipped() {
    let text = "root/\n\n   \n├── a.txt\n│   \n";
    assert_eq!(parse_tree_text(text), Ok(listing(&[("root", true), ("root/a.txt", false)])));
}

#[test]
fn a_jump_in_indentation_hangs_below_the_line_before() {
    let text = "root/\n            └── far.txt\n└── near/\n    └── in.txt";
    assert_eq!(
        parse_tree_text(text),
        Ok(listing(&[
            ("root", true),
            ("root/far.txt", false),
            ("root/near", true),
            ("root/near/in.txt", false),
        ]))
    );
}

#[test]
fn root_line_must_be_a_directory() {
    assert_eq!(parse_tree_text("root"), Err("Root line must be a directory".to_string()));
    assert_eq!(parse_tree_text(""), Err("Root line must be a directory".to_string()));
    assert_eq!(parse_tree_text("   \nroot/"), Err("Root line must be a directory".to_string()));
    assert_eq!(parse_tree_text("/"), Ok(listing(&[("", true)])));
}

#[test]
fn entities_get_fresh_identities() {
    let entities = parse_tree_to_entities(SAMPLE_TEXT).unwrap();
    let paths: Vec<(String, bool)> =
        entities.iter().map(|e| (e.path.clone(), e.is_dir)).collect();
    assert_eq!(Ok(paths), parse_tree_text(SAMPLE_TEXT));
    let ids: HashSet<String> = entities.iter().map(|e| e.id.clone()).collect();
    assert_eq!(ids.len(), entities.len());
    assert_eq!(entities[1].path, "root/dir1");
    for e in &entities {
        assert_eq!(e.id.chars().count(), 36);
    }
    assert_eq!(
        parse_tree_to_entities("no root").unwrap_err(),
        "Root line must be a directory"
    );
}

#[test]
fn paths_begin_with_the_name_of_the_root() {
    assert_eq!(
        parse_tree_text("dir1/\n├── file1.txt\n└── file2.txt"),
        Ok(listing(&[("dir1", true), ("dir1/file1.txt", false), ("dir1/file2.txt", false)]))
    );
    assert_eq!(
        parse_tree_text("root/\n├── a/\n│   └── x.txt\n└── b.txt"),
        Ok(listing(&[
            ("root", true),
            ("root/a", true),
            ("root/a/x.txt", false),
            ("root/b.txt", false),
        ]))
    );
}

#[test]
fn a_path_listed_twice_is_rejected() {
    assert_eq!(
        parse_tree_text("root/\n├── a.txt\n└── a.txt"),
        Err("Duplicate path".to_string())
    );
    assert_eq!(
        parse_tree_text("root/\n├── d/\n│   └── x\n└── d/\n    └── y"),
        Err("Duplicate path".to_string())
    );
    assert_eq!(
        parse_tree_to_entities("root/\n├── a.txt\n└── a.txt").unwrap_err(),
        "Duplicate path"
    );
    assert!(parse_tree_text("root/\n├── d/\n│   └── x\n└── e/\n    └── x").is_ok());
}
