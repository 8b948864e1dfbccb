use treenamer::error::ErrorType;
use treenamer::operation::FileOperation;
use treenamer::reconcile::{reconcile, reconcile_at, reconcile_texts};
use treenamer::tree::TreeNode;

fn node(id: &str, name: &str, is_dir: bool, children: Vec<TreeNode>) -> TreeNode {
    TreeNode { id: id.to_string(), name: name.to_string(), is_dir, children }
}

fn rename(from: &str, to: &str) -> FileOperation {
    FileOperation::Rename { from: from.to_string(), to: to.to_string() }
}

fn create_dir(path: &str) -> FileOperation {
    FileOperation::CreateDir { path: path.to_string() }
}

fn create_file(path: &str) -> FileOperation {
    FileOperation::CreateFile { path: path.to_string() }
}

fn delete(path: &str) -> FileOperation {
    FileOperation::Delete { path: path.to_string() }
}

fn sample() -> TreeNode {
    node(
        "root",
        "root",
        true,
        vec![
            node(
                "dir1",
                "dir1",
                true,
                vec![
                    node("file1", "file1.txt", false, vec![]),
                    node("file2", "file2.txt", false, vec![]),
                ],
            ),
            node(
                "dir2",
                "dir2",
                true,
                vec![node(
                    "subdir",
                    "subdir",
                    true,
                    vec![node("file3", "file3.txt", false, vec![])],
                )],
            ),
        ],
    )
}

#[test]
fn fs_test_operations_generation_with_ids() {
    let mut original_tree = node("root-id", "root", true, Vec::new());
    let file1 = node("file1-id", "file1.txt", false, Vec::new());
    let dir1 = node("dir1-id", "dir1", true, Vec::new());
    original_tree.children.push(file1);
    original_tree.children.push(dir1);

    let mut modified_tree = node("root-id", "root", true, Vec::new());
    let file1_renamed = node("file1-id", "file2.txt", false, Vec::new());
    let file1_id = file1_renamed.id.clone();
    let file1_new_name = file1_renamed.name.clone();
    let dir1 = node("dir1-id", "dir1", true, Vec::new());
    let new_file = node("new-file-id", "new_file.txt", false, Vec::new());
    modified_tree.children.push(file1_renamed);
    modified_tree.children.push(dir1);
    modified_tree.children.push(new_file);

    let test_path = "/tmp".to_string();
    let operations = match reconcile(&test_path, &original_tree, &modified_tree) {
        Ok(ops) => ops,
        Err(e) => panic!("Failed to generate operations: {}", e.describe()),
    };

    assert!(!operations.is_empty());
    let rename_ops: Vec<_> =
        operations.iter().filter(|op| matches!(op, FileOperation::Rename { .. })).collect();
    assert_eq!(rename_ops.len(), 1);
    assert_eq!(file1_id, "file1-id");
    assert_eq!(file1_new_name, "file2.txt");
    assert_eq!(modified_tree.children.len(), 3);
}

#[test]
fn main_test_operations_generation_with_ids() {
    let mut original_tree = node("root-id", "root", true, Vec::new());
    let file1 = node("file1-id", "file1.txt", false, Vec::new());
    let dir1 = node("dir1-id", "dir1", true, Vec::new());
    original_tree.children.push(file1);
    original_tree.children.push(dir1);

    let mut modified_tree = node("root-id", "root", true, Vec::new());
    let file1_renamed = node("file1-id", "file2.txt", false, Vec::new());
    let file1_id = file1_renamed.id.clone();
    let file1_new_name = file1_renamed.name.clone();
    let dir1 = node("dir1-id", "dir1", true, Vec::new());
    let new_file = node("new-file-id", "new_file.txt", false, Vec::new());
    modified_tree.children.push(file1_renamed);
    modified_tree.children.push(dir1);
    modified_tree.children.push(new_file);

    let test_path = "/tmp".to_string();
    let operations = match reconcile(&test_path, &original_tree, &modified_tree) {
        Ok(ops) => ops,
        Err(e) => panic!("Failed to generate operations: {}", e.describe()),
    };

    assert!(!operations.is_empty());
    let rename_ops: Vec<_> =
        operations.iter().filter(|op| matches!(op, FileOperation::Rename { .. })).collect();
    assert_eq!(rename_ops.len(), 1);
    assert_eq!(file1_id, "file1-id");
    assert_eq!(file1_new_name, "file2.txt");
    assert_eq!(modified_tree.children.len(), 3);
}

#[test]
fn identity_scenario_gives_one_create_and_one_rename() {
    let original = node(
        "root-id",
        "root",
        true,
        vec![node("A", "file1.txt", false, vec![]), node("B", "dir1", true, vec![])],
    );
    let modified = node(
        "root-id",
        "root",
        true,
        vec![
            node("A", "file2.txt", false, vec![]),
            node("B", "dir1", true, vec![]),
            node("C", "new_file.txt", false, vec![]),
        ],
    );
    let ops = reconcile("/work/root", &original, &modified).unwrap();
    assert_eq!(
        ops,
        vec![
            create_file("/work/root/new_file.txt"),
            rename("/work/root/file1.txt", "/work/root/file2.txt"),
        ]
    );
}

#[test]
fn unchanged_tree_needs_no_operation() {
    let ops = reconcile("/work/root", &sample(), &sample()).unwrap();
    assert_eq!(ops, Vec::<FileOperation>::new());
}

#[test]
fn unchanged_tree_without_identities_needs_no_operation() {
    let plain = node(
        "",
        "root",
        true,
        vec![
            node("", "a", true, vec![node("", "x.txt", false, vec![])]),
            node("", "b.txt", false, vec![]),
        ],
    );
    let same = node(
        "",
        "root",
        true,
        vec![
            node("", "a", true, vec![node("", "x.txt", false, vec![])]),
            node("", "b.txt", false, vec![]),
        ],
    );
    assert_eq!(reconcile("/w", &plain, &same).unwrap(), Vec::<FileOperation>::new());
}

#[test]
fn renaming_one_leaf_gives_one_rename() {
    let mut modified = sample();
    modified.children[1].children[0].children[0].name = "notes.md".to_string();
    let ops = reconcile("/work/root", &sample(), &modified).unwrap();
    assert_eq!(
        ops,
        vec![rename("/work/root/dir2/subdir/file3.txt", "/work/root/dir2/subdir/notes.md")]
    );
}

#[test]
fn removing_one_leaf_gives_one_delete() {
    let mut modified = sample();
    modified.children[0].children.remove(1);
    let ops = reconcile("/work/root", &sample(), &modified).unwrap();
    assert_eq!(ops, vec![delete("/work/root/dir1/file2.txt")]);
}

#[test]
fn renamed_directories_take_along_what_they_hold() {
    let original = sample();
    let modified = node(
        "root",
        "root",
        true,
        vec![
            node(
                "dir1",
                "renamed_dir1",
                true,
                vec![
                    node("file1", "file1.txt", false, vec![]),
                    node("file2", "file2_renamed.txt", false, vec![]),
                ],
            ),
            node(
                "dir2",
                "dir2",
                true,
                vec![node(
                    "subdir",
                    "renamed_subdir",
                    true,
                    vec![node("file3", "file3.txt", false, vec![])],
                )],
            ),
            node(
                "new_dir",
                "new_dir",
                true,
                vec![node("new_file", "new_file.txt", false, vec![])],
            ),
        ],
    );
    let ops = reconcile("/base", &original, &modified).unwrap();
    assert_eq!(
        ops,
        vec![
            create_dir("/base/new_dir"),
            create_file("/base/new_dir/new_file.txt"),
            rename("/base/dir1/file2.txt", "/base/renamed_dir1/file2_renamed.txt"),
            rename("/base/dir2/subdir", "/base/dir2/renamed_subdir"),
            rename("/base/dir1", "/base/renamed_dir1"),
        ]
    );
}

#[test]
fn fuzzy_scenario_gives_two_renames() {
    let original = node(
        "",
        "root",
        true,
        vec![node(
            "",
            "dir1",
            true,
            vec![node("", "file1.txt", false, vec![]), node("", "file2.txt", false, vec![])],
        )],
    );
    let modified = node(
        "",
        "root",
        true,
        vec![node(
            "",
            "renamed_dir1",
            true,
            vec![
                node("", "file1.txt", false, vec![]),
                node("", "file2_renamed.txt", false, vec![]),
            ],
        )],
    );
    let ops = reconcile("/w", &original, &modified).unwrap();
    assert_eq!(
        ops,
        vec![
            rename("/w/dir1/file2.txt", "/w/renamed_dir1/file2_renamed.txt"),
            rename("/w/dir1", "/w/renamed_dir1"),
        ]
    );
}

#[test]
fn unrelated_names_are_deleted_and_created() {
    let original = node("", "root", true, vec![node("", "alpha.txt", false, vec![])]);
    let modified = node("", "root", true, vec![node("", "zzz.bin", false, vec![])]);
    let ops = reconcile("/w", &original, &modified).unwrap();
    assert_eq!(ops, vec![create_file("/w/zzz.bin"), delete("/w/alpha.txt")]);
}

#[test]
fn nested_new_directory_is_covered_by_the_one_above() {
    let original = node("r", "root", true, vec![]);
    let modified = node(
        "r",
        "root",
        true,
        vec![node(
            "n1",
            "outer",
            true,
            vec![node(
                "n2",
                "inner",
                true,
                vec![node("n3", "leaf.txt", false, vec![])],
            )],
        )],
    );
    let ops = reconcile("/w", &original, &modified).unwrap();
    assert_eq!(
        ops,
        vec![create_dir("/w/outer"), create_file("/w/outer/inner/leaf.txt")]
    );
}

#[test]
fn deletions_come_deepest_first() {
    let original = node(
        "r",
        "root",
        true,
        vec![
            node("a", "a", true, vec![node("b", "b", true, vec![node("c", "c.txt", false, vec![])])]),
            node("k", "keep.txt", false, vec![]),
        ],
    );
    let modified = node("r", "root", true, vec![node("k", "keep.txt", false, vec![])]);
    let ops = reconcile("/w", &original, &modified).unwrap();
    assert_eq!(ops, vec![delete("/w/a/b/c.txt"), delete("/w/a/b"), delete("/w/a")]);
}

#[test]
fn renaming_the_root_changes_nothing() {
    let original = node("r", "root", true, vec![node("f", "f.txt", false, vec![])]);
    let modified = node("r", "other", true, vec![node("f", "f.txt", false, vec![])]);
    assert_eq!(reconcile("/w", &original, &modified).unwrap(), Vec::<FileOperation>::new());
}

#[test]
fn identity_of_another_kind_is_no_match() {
    let original = node("r", "root", true, vec![node("x", "thing", false, vec![])]);
    let modified = node("r", "root", true, vec![node("x", "thing", true, vec![])]);
    let ops = reconcile("/w", &original, &modified).unwrap();
    assert_eq!(ops, vec![create_dir("/w/thing"), delete("/w/thing")]);
}

#[test]
fn root_that_is_a_file_is_malformed() {
    let original = node("r", "root", false, vec![]);
    let err = reconcile("/w", &original, &sample()).unwrap_err();
    assert_eq!(err.error_type, ErrorType::MalformedTree);
    assert_eq!(err.message, "Root must be a directory");
    assert_eq!(err.describe(), "MalformedTree: Root must be a directory");
    let err = reconcile("/w", &sample(), &original).unwrap_err();
    assert_eq!(err.message, "Root must be a directory");
}

#[test]
fn duplicate_sibling_names_are_malformed() {
    let bad = node(
        "r",
        "root",
        true,
        vec![node("a", "same", false, vec![]), node("b", "same", true, vec![])],
    );
    let err = reconcile("/w", &sample(), &bad).unwrap_err();
    assert_eq!(err.error_type, ErrorType::MalformedTree);
    assert_eq!(err.message, "Invalid tree structure");
    assert!(!err.recoverable);
    assert_eq!(err.path, None);
}

#[test]
fn file_with_children_and_bad_names_are_malformed() {
    let file_parent = node(
        "r",
        "root",
        true,
        vec![node("a", "a.txt", false, vec![node("b", "b", false, vec![])])],
    );
    assert_eq!(
        reconcile("/w", &file_parent, &sample()).unwrap_err().message,
        "Invalid tree structure"
    );
    let slash = node("r", "root", true, vec![node("a", "a/b", false, vec![])]);
    assert!(reconcile("/w", &slash, &sample()).is_err());
    let empty = node("r", "root", true, vec![node("a", "", false, vec![])]);
    assert!(reconcile("/w", &empty, &sample()).is_err());
}

#[test]
fn duplicate_identity_is_malformed() {
    let bad = node(
        "r",
        "root",
        true,
        vec![node("x", "one", false, vec![]), node("x", "two", false, vec![])],
    );
    let err = reconcile("/w", &bad, &sample()).unwrap_err();
    assert_eq!(err.error_type, ErrorType::MalformedTree);
    assert_eq!(err.message, "Duplicate identity");
}

#[test]
fn modified_entity_without_identity_is_new() {
    let original = node(
        "r",
        "root",
        true,
        vec![node("a", "a.txt", false, vec![]), node("b", "b.txt", false, vec![])],
    );
    let modified = node(
        "r",
        "root",
        true,
        vec![
            node("a", "renamed.txt", false, vec![]),
            node("", "b.txt", false, vec![]),
            node("", "c.txt", false, vec![]),
        ],
    );
    let ops = reconcile("/w", &original, &modified).unwrap();
    assert_eq!(
        ops,
        vec![
            create_file("/w/b.txt"),
            create_file("/w/c.txt"),
            rename("/w/a.txt", "/w/renamed.txt"),
            delete("/w/b.txt"),
        ]
    );
}

#[test]
fn missing_working_directory_is_reported_first() {
    let bad = node("r", "root", false, vec![]);
    let err = reconcile_at("/nowhere", false, &bad, &bad).unwrap_err();
    assert_eq!(err.error_type, ErrorType::FileNotFound);
    assert_eq!(err.message, "Path does not exist: /nowhere");
    assert_eq!(err.path, Some("/nowhere".to_string()));
    assert!(!err.recoverable);
    assert_eq!(err.describe(), "FileNotFound: Path does not exist: /nowhere");
    let err = reconcile_at("/somewhere", true, &bad, &bad).unwrap_err();
    assert_eq!(err.error_type, ErrorType::MalformedTree);
    assert_eq!(
        reconcile_at("/somewhere", true, &sample(), &sample()).unwrap(),
        Vec::<FileOperation>::new()
    );
}

#[test]
fn repeated_known_identity_in_modified_tree_is_malformed() {
    let original = node("r", "root", true, vec![node("a", "a.txt", false, vec![])]);
    let modified = node(
        "r",
        "root",
        true,
        vec![node("a", "a.txt", false, vec![]), node("a", "copy.txt", false, vec![])],
    );
    assert_eq!(reconcile("/w", &original, &modified).unwrap_err().message, "Duplicate identity");
    let blanks = node(
        "r",
        "root",
        true,
        vec![node("", "x", false, vec![]), node("", "y", false, vec![])],
    );
    assert!(reconcile("/w", &original, &blanks).is_ok());
}

#[test]
fn texts_are_reconciled_by_structure() {
    let original = "root/\n└── dir1/\n    ├── file1.txt\n    └── file2.txt\n";
    let modified = "root/\n└── renamed_dir1/\n    ├── file1.txt\n    └── file2_renamed.txt\n";
    assert_eq!(
        reconcile_texts("/w", original, modified).unwrap(),
        vec![
            rename("/w/dir1/file2.txt", "/w/renamed_dir1/file2_renamed.txt"),
            rename("/w/dir1", "/w/renamed_dir1"),
        ]
    );
    assert_eq!(reconcile_texts("/w", original, original).unwrap(), Vec::<FileOperation>::new());
}

#[test]
fn malformed_texts_are_rejected() {
    let good = "root/\n└── a.txt\n";
    let err = reconcile_texts("/w", "no root", good).unwrap_err();
    assert_eq!(err.error_type, ErrorType::MalformedTree);
    assert_eq!(err.message, "Root line must be a directory");
    let err = reconcile_texts("/w", good, "").unwrap_err();
    assert_eq!(err.message, "Root line must be a directory");
    let twice = "root/\n├── a.txt\n└── a.txt\n";
    let err = reconcile_texts("/w", good, twice).unwrap_err();
    assert_eq!(err.error_type, ErrorType::MalformedTree);
    assert_eq!(err.message, "Duplicate path");
}

#[test]
fn renaming_one_directory_gives_one_rename() {
    let mut modified = sample();
    modified.children[1].name = "archive".to_string();
    let ops = reconcile("/work/root", &sample(), &modified).unwrap();
    assert_eq!(ops, vec![rename("/work/root/dir2", "/work/root/archive")]);
}

#[test]
fn entity_moved_out_of_a_renamed_directory_is_renamed_itself() {
    let original = node(
        "r",
        "root",
        true,
        vec![node("d", "dir", true, vec![node("f", "f.txt", false, vec![])])],
    );
    let modified = node(
        "r",
        "root",
        true,
        vec![node("d", "moved", true, vec![]), node("f", "f.txt", false, vec![])],
    );
    let ops = reconcile("/w", &original, &modified).unwrap();
    assert_eq!(ops, vec![rename("/w/dir/f.txt", "/w/f.txt"), rename("/w/dir", "/w/moved")]);
}

#[test]
fn places_of_backups_are_never_touched() {
    let original = node(
        "r",
        "root",
        true,
        vec![
            node("b", ".treenamer_backup", true, vec![node("s", "17", true, vec![])]),
            node("t", ".treenamer_temp", true, vec![]),
            node("f", "f.txt", false, vec![]),
            node("g", "g.txt", false, vec![]),
        ],
    );
    let modified = node(
        "r",
        "root",
        true,
        vec![
            node("b", "renamed_backup", true, vec![node("s", "17", true, vec![])]),
            node("f", ".treenamer_temp", false, vec![]),
            node("g", "h.txt", false, vec![]),
            node("n", ".treenamer_backup", true, vec![node("m", "x.txt", false, vec![])]),
        ],
    );
    let ops = reconcile("/w", &original, &modified).unwrap();
    assert_eq!(ops, vec![rename("/w/g.txt", "/w/h.txt")]);
    let elsewhere = node(
        "r",
        "root",
        true,
        vec![node("d", "d", true, vec![node("b", ".treenamer_backup", true, vec![])])],
    );
    let gone = node("r", "root", true, vec![node("d", "d", true, vec![])]);
    assert_eq!(
        reconcile("/w", &elsewhere, &gone).unwrap(),
        vec![delete("/w/d/.treenamer_backup")]
    );
}
