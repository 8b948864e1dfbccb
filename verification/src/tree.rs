//! The tree of a snapshot: nodes with an identity, a name, a kind and children.

use vstd::prelude::*;
use crate::error::AppError;
use crate::text::chars_of;

verus! {

/// One node of a directory tree.
#[derive(Debug, PartialEq, Eq)]
pub struct TreeNode {
    /// The stable identity of the entity; empty where none is known.
    pub id: String,
    /// The name of the entity inside its parent.
    pub name: String,
    /// Whether the entity is a directory.
    pub is_dir: bool,
    /// What the directory holds.
    pub children: Vec<TreeNode>,
}

/// Whether `name` can be one segment of a path: it is not empty and holds no `/`.
pub open spec fn valid_name(name: Seq<char>) -> bool {
    name.len() > 0 && !name.contains('/')
}

/// Whether the names of `children` are pairwise different.
pub open spec fn distinct_names(children: Seq<TreeNode>) -> bool {
    forall|i: int, j: int|
        0 <= i < j < children.len() ==> (#[trigger] children[i]).name@ != (
        #[trigger] children[j]).name@
}

/// Whether the subtree at `node` is sound: a file holds nothing, no two siblings share a
/// name, every name below `node` is one path segment, and so on down the tree.
pub open spec fn sound_node(node: TreeNode) -> bool
    decreases node, 0nat,
{
    &&& !node.is_dir ==> node.children@.len() == 0
    &&& distinct_names(node.children@)
    &&& sound_children(node.children@, node.children@.len())
}

/// Whether the first `n` of `children` are soundly named and sound subtrees.
pub open spec fn sound_children(children: Seq<TreeNode>, n: nat) -> bool
    decreases children, n,
{
    if n == 0 || n > children.len() {
        true
    } else {
        &&& sound_children(children, (n - 1) as nat)
        &&& valid_name(children[n - 1].name@)
        &&& sound_node(children[n - 1])
    }
}

/// Whether `root` is a well-formed snapshot: a directory over a sound tree.
pub open spec fn well_formed(root: TreeNode) -> bool {
    root.is_dir && sound_node(root)
}

/// Whether `name` is one path segment.
pub fn check_name(name: &str) -> (ok: bool)
    ensures
        ok == valid_name(name@),
{
    let v = chars_of(name);
    if v.len() == 0 {
        return false;
    }
    let mut i: usize = 0;
    while i < v.len()
        invariant
            i <= v.len(),
            v@ == name@,
            forall|k: int| 0 <= k < i ==> v@[k] != '/',
        decreases v.len() - i,
    {
        if v[i] == '/' {
            return false;
        }
        i = i + 1;
    }
    true
}

/// Whether no two of `children` share a name.
pub fn check_distinct_names(children: &Vec<TreeNode>) -> (ok: bool)
    ensures
        ok == distinct_names(children@),
{
    let mut j: usize = 0;
    while j < children.len()
        invariant
            j <= children.len(),
            forall|a: int, b: int|
                0 <= a < b < j ==> (#[trigger] children@[a]).name@ != (
                #[trigger] children@[b]).name@,
        decreases children.len() - j,
    {
        let mut i: usize = 0;
        while i < j
            invariant
                i <= j < children.len(),
                forall|a: int| 0 <= a < i ==> (#[trigger] children@[a]).name@ != children@[j as int].name@,
            decreases j - i,
        {
            if children[i].name == children[j].name {
                return false;
            }
            i = i + 1;
        }
        j = j + 1;
    }
    true
}

/// Whether the subtree at `node` is sound.
pub fn check_node(node: &TreeNode) -> (ok: bool)
    ensures
        ok == sound_node(*node),
    decreases *node,
{
    if !node.is_dir && node.children.len() != 0 {
        return false;
    }
    if !check_distinct_names(&node.children) {
        return false;
    }
    let mut i: usize = 0;
    while i < node.children.len()
        invariant
            i <= node.children.len(),
            sound_children(node.children@, i as nat),
        decreases node.children.len() - i,
    {
        if !check_name(node.children[i].name.as_str()) {
            proof {
                if sound_children(node.children@, node.children@.len()) {
                    lemma_sound_children_prefix(
                        node.children@,
                        i as nat + 1,
                        node.children@.len(),
                    );
                }
            }
            return false;
        }
        if !check_node(&node.children[i]) {
            proof {
                if sound_children(node.children@, node.children@.len()) {
                    lemma_sound_children_prefix(
                        node.children@,
                        i as nat + 1,
                        node.children@.len(),
                    );
                }
            }
            return false;
        }
        i = i + 1;
    }
    true
}

/// If the first `n` children are sound, so are the first `m` for every `m <= n`.
pub proof fn lemma_sound_children_prefix(children: Seq<TreeNode>, m: nat, n: nat)
    requires
        m <= n <= children.len(),
        sound_children(children, n),
    ensures
        sound_children(children, m),
    decreases n,
{
    if m < n {
        lemma_sound_children_prefix(children, m, (n - 1) as nat);
    }
}

/// Accepts a well-formed snapshot and rejects every other tree as malformed: one whose
/// root is not a directory, and one that is unsound somewhere below the root.
pub fn validate_tree(root: &TreeNode) -> (r: Result<(), AppError>)
    ensures
        r is Ok <==> well_formed(*root),
        r matches Err(e) ==> e@ == crate::error::spec_malformed(
            if root.is_dir {
                "Invalid tree structure"@
            } else {
                "Root must be a directory"@
            },
        ),
{
    if !root.is_dir {
        return Err(AppError::malformed("Root must be a directory"));
    }
    if !check_node(root) {
        return Err(AppError::malformed("Invalid tree structure"));
    }
    Ok(())
}

/// Whether the trees `a` and `b` hold the same: identity, name, kind and children, all
/// the way down.
pub open spec fn same_tree(a: TreeNode, b: TreeNode) -> bool
    decreases a, 0nat,
{
    &&& a.id@ == b.id@
    &&& a.name@ == b.name@
    &&& a.is_dir == b.is_dir
    &&& a.children@.len() == b.children@.len()
    &&& same_trees(a.children@, b.children@, a.children@.len())
}

/// Whether the first `n` trees of `a` and of `b` hold the same, one by one.
pub open spec fn same_trees(a: Seq<TreeNode>, b: Seq<TreeNode>, n: nat) -> bool
    decreases a, n,
{
    if n == 0 || n > a.len() || n > b.len() {
        true
    } else {
        same_trees(a, b, (n - 1) as nat) && same_tree(a[n - 1], b[n - 1])
    }
}

/// Whether the first `n` trees of two lists hold the same depends on those trees alone.
proof fn lemma_same_trees_prefix(a: Seq<TreeNode>, b: Seq<TreeNode>, c: Seq<TreeNode>, n: nat)
    requires
        n <= b.len(),
        n <= c.len(),
        forall|i: int| 0 <= i < n ==> b[i] == c[i],
    ensures
        same_trees(a, b, n) == same_trees(a, c, n),
    decreases n,
{
    if n > 0 {
        lemma_same_trees_prefix(a, b, c, (n - 1) as nat);
    }
}

impl TreeNode {
    /// An independent copy of the tree.
    pub fn duplicate(&self) -> (r: TreeNode)
        ensures
            same_tree(*self, r),
        decreases *self,
    {
        let mut children: Vec<TreeNode> = Vec::new();
        let mut i: usize = 0;
        while i < self.children.len()
            invariant
                i <= self.children.len(),
                children.len() == i,
                same_trees(self.children@, children@, i as nat),
            decreases self.children.len() - i,
        {
            let child = self.children[i].duplicate();
            proof {
                lemma_same_trees_prefix(self.children@, children@.push(child), children@, i as nat);
            }
            children.push(child);
            i = i + 1;
        }
        TreeNode { id: self.id.clone(), name: self.name.clone(), is_dir: self.is_dir, children }
    }
}

impl Clone for TreeNode {
    /// An independent copy of the tree.
    fn clone(&self) -> (r: TreeNode)
        ensures
            same_tree(*self, r),
    {
        self.duplicate()
    }
}

} // verus!
