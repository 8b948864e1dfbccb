use std::collections::HashSet;
use treenamer::identity::{
    draw_identity, fill_identities, is_among, renew_identities, settle_identity,
};
use treenamer::tree::TreeNode;

fn strings(list: &[&str]) -> Vec<String> {
    list.iter().map(|s| s.to_string()).collect()
}

#[test]
fn a_drawn_identity_that_is_taken_is_made_another() {
    let given = strings(&["a", "taken", "longest-one"]);
    assert_eq!(settle_identity(&given, "free".to_string()), "free");
    assert_eq!(settle_identity(&given, "taken".to_string()), "longest-onetaken");
    assert_eq!(settle_identity(&Vec::new(), "x".to_string()), "x");
    assert!(is_among(&given, &"taken".to_string()));
    assert!(!is_among(&given, &"free".to_string()));
    let drawn = draw_identity(&given);
    assert_eq!(drawn.len(), 36);
    assert!(!given.contains(&drawn));
}

#[test]
fn gaps_are_filled_with_identities_of_their_own() {
    let filled = fill_identities(&strings(&["", "keep", "", "", "other"]));
    assert_eq!(filled.len(), 5);
    assert_eq!(filled[1], "keep");
    assert_eq!(filled[4], "other");
    for id in &filled {
        assert!(!id.is_empty());
    }
    let distinct: HashSet<&String> = filled.iter().collect();
    assert_eq!(distinct.len(), 5);
    assert_eq!(fill_identities(&Vec::new()), Vec::<String>::new());
}

#[test]
fn a_tree_gets_identities_anew() {
    let tree = TreeNode {
        id: "same".to_string(),
        name: "root".to_string(),
        is_dir: true,
        children: vec![
            TreeNode {
                id: "same".to_string(),
                name: "a".to_string(),
                is_dir: true,
                children: vec![TreeNode {
                    id: String::new(),
                    name: "b".to_string(),
                    is_dir: false,
                    children: vec![],
                }],
            },
            TreeNode { id: "same".to_string(), name: "c".to_string(), is_dir: false, children: vec![] },
        ],
    };
    let out = renew_identities(&tree);
    assert_eq!(out.name, "root");
    assert_eq!(out.children[0].name, "a");
    assert_eq!(out.children[0].children[0].name, "b");
    assert_eq!(out.children[1].name, "c");
    let ids = vec![
        out.id.clone(),
        out.children[0].id.clone(),
        out.children[0].children[0].id.clone(),
        out.children[1].id.clone(),
    ];
    let distinct: HashSet<&String> = ids.iter().collect();
    assert_eq!(distinct.len(), 4);
    assert!(!ids.contains(&"same".to_string()));
}
