use std::collections::HashSet;
use treenamer::tree::TreeNode;

#[test]
fn tree_test_tree_node_id_generation() {
    let mut root = TreeNode {
        id: uuid::Uuid::new_v4().to_string(),
        name: "root".to_string(),
        is_dir: true,
        children: Vec::new(),
    };

    let child1 = TreeNode {
        id: uuid::Uuid::new_v4().to_string(),
        name: "child1".to_string(),
        is_dir: false,
        children: Vec::new(),
    };

    let child2 = TreeNode {
        id: uuid::Uuid::new_v4().to_string(),
        name: "child2".to_string(),
        is_dir: true,
        children: Vec::new(),
    };

    root.children.push(child1);
    root.children.push(child2);

    let mut ids = HashSet::new();
    ids.insert(root.id.clone());

    for child in &root.children {
        assert!(!ids.contains(&child.id), "ID冲突: {}", child.id);
        ids.insert(child.id.clone());
    }

    assert!(!root.id.is_empty(), "根节点ID不应为空");
    for child in &root.children {
        assert!(!child.id.is_empty(), "子节点ID不应为空: {}", child.name);
    }
}

#[test]
fn main_test_tree_node_id_generation() {
    let mut root = TreeNode {
        id: uuid::Uuid::new_v4().to_string(),
        name: "root".to_string(),
        is_dir: true,
        children: Vec::new(),
    };

    let child1 = TreeNode {
        id: uuid::Uuid::new_v4().to_string(),
        name: "child1".to_string(),
        is_dir: false,
        children: Vec::new(),
    };

    let child2 = TreeNode {
        id: uuid::Uuid::new_v4().to_string(),
        name: "child2".to_string(),
        is_dir: true,
        children: Vec::new(),
    };

    root.children.push(child1);
    root.children.push(child2);

    let mut ids = HashSet::new();
    ids.insert(root.id.clone());

    for child in &root.children {
        assert!(!ids.contains(&child.id), "ID冲突: {}", child.id);
        ids.insert(child.id.clone());
    }

    assert!(!root.id.is_empty(), "根节点ID不应为空");
    for child in &root.children {
        assert!(!child.id.is_empty(), "子节点ID不应为空: {}", child.name);
    }
}
