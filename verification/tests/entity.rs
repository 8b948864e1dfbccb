use treenamer::entity::{
    check_all_identified, check_some_identified, check_unique_ids, check_unique_known_ids,
    snapshot, tree_node_to_id_paths, tree_node_to_path_ids, tree_node_to_paths, Entity,
};
use treenamer::plan::{absolute_path, path_is_above, plan_operations, slash_count, sort_deepest_first};
use treenamer::operation::FileOperation;
use treenamer::resolve::{resolve_by_identity, Match};
use treenamer::tree::{check_name, validate_tree, TreeNode};

fn node(id: &str, name: &str, is_dir: bool, children: Vec<TreeNode>) -> TreeNode {
    TreeNode { id: id.to_string(), name: name.to_string(), is_dir, children }
}

fn e(id: &str, path: &str, is_dir: bool) -> Entity {
    Entity { id: id.to_string(), path: path.to_string(), is_dir }
}

fn sample() -> TreeNode {
    node(
        "r",
        "root",
        true,
        vec![
            node("d", "dir", true, vec![node("f", "f.txt", false, vec![])]),
            node("g", "g.txt", false, vec![]),
        ],
    )
}

#[test]
fn tree_is_flattened_in_pre_order() {
    assert_eq!(
        tree_node_to_path_ids(&sample(), ""),
        vec![
            ("root".to_string(), "r".to_string()),
            ("root/dir".to_string(), "d".to_string()),
            ("root/dir/f.txt".to_string(), "f".to_string()),
            ("root/g.txt".to_string(), "g".to_string()),
        ]
    );
    assert_eq!(
        tree_node_to_paths(&sample(), "base"),
        vec![
            ("base/root".to_string(), true),
            ("base/root/dir".to_string(), true),
            ("base/root/dir/f.txt".to_string(), false),
            ("base/root/g.txt".to_string(), false),
        ]
    );
    assert_eq!(
        tree_node_to_id_paths(&sample(), ""),
        vec![
            e("r", "root", true),
            e("d", "root/dir", true),
            e("f", "root/dir/f.txt", false),
            e("g", "root/g.txt", false),
        ]
    );
}

#[test]
fn snapshot_is_relative_to_the_root() {
    assert_eq!(
        snapshot(&sample()),
        vec![e("r", "", true), e("d", "dir", true), e("f", "dir/f.txt", false), e("g", "g.txt", false)]
    );
}

#[test]
fn identities_are_checked() {
    let s = snapshot(&sample());
    assert!(check_unique_ids(&s));
    assert!(check_all_identified(&s));
    let twice = vec![e("a", "", true), e("b", "x", false), e("a", "y", false)];
    assert!(!check_unique_ids(&twice));
    let blank = vec![e("a", "", true), e("", "x", false)];
    assert!(!check_all_identified(&blank));
    assert!(check_unique_ids(&Vec::new()));
}

#[test]
fn trees_are_validated() {
    assert!(validate_tree(&sample()).is_ok());
    assert!(check_name("file.txt"));
    assert!(!check_name(""));
    assert!(!check_name("a/b"));
    assert!(validate_tree(&node("r", "", true, vec![])).is_ok());
}

#[test]
fn identities_pair_the_entities() {
    let original = vec![e("r", "", true), e("a", "a.txt", false), e("b", "b", true)];
    let modified = vec![e("other", "", true), e("b", "b2", true), e("c", "c", true), e("a", "b2/a.txt", false)];
    assert_eq!(
        resolve_by_identity(&original, &modified),
        vec![
            Match { original: 0, modified: 0, inherited: false },
            Match { original: 2, modified: 1, inherited: false },
            Match { original: 1, modified: 3, inherited: false },
        ]
    );
    assert_eq!(resolve_by_identity(&Vec::new(), &modified), Vec::<Match>::new());
}

#[test]
fn paths_are_placed_and_compared() {
    assert_eq!(absolute_path("/w", ""), "/w");
    assert_eq!(absolute_path("/w", "a/b"), "/w/a/b");
    assert_eq!(slash_count("/w/a/b"), 3);
    assert_eq!(slash_count(""), 0);
    assert!(path_is_above("a", "a/b"));
    assert!(path_is_above("", "a"));
    assert!(!path_is_above("", ""));
    assert!(!path_is_above("a", "a"));
    assert!(!path_is_above("a", "ab/c"));
    assert!(!path_is_above("a/b", "a"));
}

#[test]
fn operations_are_ordered_deepest_first() {
    let d = |p: &str| FileOperation::Delete { path: p.to_string() };
    let ops = vec![d("/a"), d("/a/b/c"), d("/x"), d("/a/b"), d("/y/z/w"), d("none")];
    assert_eq!(
        sort_deepest_first(&ops),
        vec![d("/a/b/c"), d("/y/z/w"), d("/a/b"), d("/a"), d("/x"), d("none")]
    );
}

#[test]
fn inherited_matches_plan_nothing() {
    let original = vec![e("", "", true), e("", "a", true), e("", "a/x", false)];
    let modified = vec![e("", "", true), e("", "b", true), e("", "b/x", false)];
    let matches = vec![
        Match { original: 0, modified: 0, inherited: false },
        Match { original: 1, modified: 1, inherited: false },
        Match { original: 2, modified: 2, inherited: true },
    ];
    assert_eq!(
        plan_operations("/w", &original, &modified, &matches),
        vec![FileOperation::Rename { from: "/w/a".to_string(), to: "/w/b".to_string() }]
    );
}

#[test]
fn known_identities_are_checked() {
    let blanks = vec![e("", "", true), e("", "x", false), e("", "y", false)];
    assert!(!check_some_identified(&blanks));
    assert!(check_unique_known_ids(&blanks));
    let mixed = vec![e("", "", true), e("a", "x", false), e("", "y", false), e("b", "z", false)];
    assert!(check_some_identified(&mixed));
    assert!(check_unique_known_ids(&mixed));
    let twice = vec![e("", "", true), e("a", "x", false), e("", "y", false), e("a", "z", false)];
    assert!(!check_unique_known_ids(&twice));
    assert!(!check_some_identified(&Vec::new()));
}
