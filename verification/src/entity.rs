//! The entities of a snapshot, laid out flat.
//!
//! A tree is flattened in pre-order into a sequence of entities, each with its identity,
//! its path and its kind. Everything after the flattening works on such sequences.

use vstd::prelude::*;
use crate::text::{join_path, spec_join};
use crate::tree::TreeNode;

verus! {

/// One entity of a snapshot.
#[derive(Debug, PartialEq, Eq)]
pub struct Entity {
    /// The identity of the entity, empty where none is known.
    pub id: String,
    /// The names from the top of the listing down to the entity, joined by `/`.
    pub path: String,
    /// Whether the entity is a directory.
    pub is_dir: bool,
}

/// The mathematical content of an `Entity`.
pub struct EntityView {
    pub id: Seq<char>,
    pub path: Seq<char>,
    pub is_dir: bool,
}

impl View for Entity {
    type V = EntityView;

    open spec fn view(&self) -> EntityView {
        EntityView { id: self.id@, path: self.path@, is_dir: self.is_dir }
    }
}

/// The views of a sequence of entities.
pub open spec fn entities_view(entities: Seq<Entity>) -> Seq<EntityView> {
    entities.map_values(|e: Entity| e@)
}

/// Pushing an entity pushes its view.
pub proof fn lemma_entities_view_push(entities: Seq<Entity>, e: Entity)
    ensures
        entities_view(entities.push(e)) == entities_view(entities).push(e@),
{
    assert(entities_view(entities.push(e)) =~= entities_view(entities).push(e@));
}

/// The entity that `node` is when it lies in the directory at `parent`.
pub open spec fn entity_of(node: TreeNode, parent: Seq<char>) -> EntityView {
    EntityView { id: node.id@, path: spec_join(parent, node.name@), is_dir: node.is_dir }
}

/// The subtree at `node`, lying in the directory at `parent`, in pre-order: the node
/// itself, then the subtrees of its children in their order.
pub open spec fn spec_flatten(node: TreeNode, parent: Seq<char>) -> Seq<EntityView>
    decreases node, 0nat,
{
    seq![entity_of(node, parent)] + flatten_children(
        node.children@,
        spec_join(parent, node.name@),
        node.children@.len(),
    )
}

/// The subtrees of the first `n` of `children`, which lie in the directory at `parent`,
/// one after the other.
pub open spec fn flatten_children(children: Seq<TreeNode>, parent: Seq<char>, n: nat) -> Seq<
    EntityView,
>
    decreases children, n,
{
    if n == 0 || n > children.len() {
        Seq::empty()
    } else {
        flatten_children(children, parent, (n - 1) as nat) + spec_flatten(
            children[n - 1],
            parent,
        )
    }
}

/// Appends the subtree at `node` to `out`.
fn flatten_into(node: &TreeNode, parent_path: &str, out: &mut Vec<Entity>)
    ensures
        entities_view(final(out)@) == entities_view(old(out)@) + spec_flatten(
            *node,
            parent_path@,
        ),
    decreases *node,
{
    let ghost before = entities_view(out@);
    let path = join_path(parent_path, node.name.as_str());
    let me = Entity { id: node.id.clone(), path: path.clone(), is_dir: node.is_dir };
    proof {
        lemma_entities_view_push(out@, me);
    }
    out.push(me);
    let mut i: usize = 0;
    while i < node.children.len()
        invariant
            i <= node.children.len(),
            path@ == spec_join(parent_path@, node.name@),
            entities_view(out@) == before + seq![entity_of(*node, parent_path@)]
                + flatten_children(node.children@, path@, i as nat),
        decreases node.children.len() - i,
    {
        flatten_into(&node.children[i], path.as_str(), out);
        i = i + 1;
    }
}

/// Every entity of the subtree at `node` with its identity, path and kind, in pre-order.
/// The path of `node` is its name under `parent_path`, or its bare name where
/// `parent_path` is empty.
pub fn tree_node_to_id_paths(node: &TreeNode, parent_path: &str) -> (out: Vec<Entity>)
    ensures
        entities_view(out@) == spec_flatten(*node, parent_path@),
{
    let mut out: Vec<Entity> = Vec::new();
    assert(entities_view(out@) =~= Seq::<EntityView>::empty());
    flatten_into(node, parent_path, &mut out);
    out
}

/// The paths and identities of a flat listing, pair by pair.
pub open spec fn path_ids(entities: Seq<EntityView>) -> Seq<(Seq<char>, Seq<char>)> {
    entities.map_values(|e: EntityView| (e.path, e.id))
}

/// The paths and kinds of a flat listing, pair by pair.
pub open spec fn path_kinds(entities: Seq<EntityView>) -> Seq<(Seq<char>, bool)> {
    entities.map_values(|e: EntityView| (e.path, e.is_dir))
}

/// The views of a sequence of pairs of strings.
pub open spec fn string_pairs_view(pairs: Seq<(String, String)>) -> Seq<(Seq<char>, Seq<char>)> {
    pairs.map_values(|p: (String, String)| (p.0@, p.1@))
}

/// The views of a sequence of paths with their kinds.
pub open spec fn kinds_view(pairs: Seq<(String, bool)>) -> Seq<(Seq<char>, bool)> {
    pairs.map_values(|p: (String, bool)| (p.0@, p.1))
}

/// The path of every entity of the subtree at `node` with its identity, in pre-order.
pub fn tree_node_to_path_ids(node: &TreeNode, parent_path: &str) -> (out: Vec<(String, String)>)
    ensures
        string_pairs_view(out@) == path_ids(spec_flatten(*node, parent_path@)),
{
    let entities = tree_node_to_id_paths(node, parent_path);
    let mut out: Vec<(String, String)> = Vec::new();
    let mut i: usize = 0;
    while i < entities.len()
        invariant
            i <= entities.len(),
            out.len() == i,
            forall|k: int|
                0 <= k < i ==> (#[trigger] out@[k]).0@ == entities@[k].path@ && out@[k].1@
                    == entities@[k].id@,
        decreases entities.len() - i,
    {
        out.push((entities[i].path.clone(), entities[i].id.clone()));
        i = i + 1;
    }
    assert(string_pairs_view(out@) =~= path_ids(entities_view(entities@)));
    out
}

/// The path of every entity of the subtree at `node` with its kind, `true` for a
/// directory, in pre-order.
pub fn tree_node_to_paths(node: &TreeNode, parent_path: &str) -> (out: Vec<(String, bool)>)
    ensures
        kinds_view(out@) == path_kinds(spec_flatten(*node, parent_path@)),
{
    let entities = tree_node_to_id_paths(node, parent_path);
    let mut out: Vec<(String, bool)> = Vec::new();
    let mut i: usize = 0;
    while i < entities.len()
        invariant
            i <= entities.len(),
            out.len() == i,
            forall|k: int|
                0 <= k < i ==> (#[trigger] out@[k]).0@ == entities@[k].path@ && out@[k].1
                    == entities@[k].is_dir,
        decreases entities.len() - i,
    {
        out.push((entities[i].path.clone(), entities[i].is_dir));
        i = i + 1;
    }
    assert(kinds_view(out@) =~= path_kinds(entities_view(entities@)));
    out
}

/// The snapshot of the tree under `root`: the root itself with the empty path, then
/// everything below it in pre-order, each with its path relative to the root.
pub open spec fn spec_snapshot(root: TreeNode) -> Seq<EntityView> {
    seq![EntityView { id: root.id@, path: Seq::empty(), is_dir: root.is_dir }]
        + flatten_children(root.children@, Seq::empty(), root.children@.len())
}

/// Flattens the tree under `root` into its snapshot.
pub fn snapshot(root: &TreeNode) -> (out: Vec<Entity>)
    ensures
        entities_view(out@) == spec_snapshot(*root),
{
    let mut out: Vec<Entity> = Vec::new();
    let me = Entity { id: root.id.clone(), path: String::new(), is_dir: root.is_dir };
    proof {
        lemma_entities_view_push(out@, me);
        assert(entities_view(out@) =~= Seq::<EntityView>::empty());
    }
    out.push(me);
    let mut i: usize = 0;
    while i < root.children.len()
        invariant
            i <= root.children.len(),
            entities_view(out@) == seq![
                EntityView { id: root.id@, path: Seq::empty(), is_dir: root.is_dir },
            ] + flatten_children(root.children@, Seq::empty(), i as nat),
        decreases root.children.len() - i,
    {
        proof {
            reveal_strlit("");
            assert(""@ =~= Seq::<char>::empty());
        }
        flatten_into(&root.children[i], "", &mut out);
        i = i + 1;
    }
    out
}

/// Whether no two entities of `entities` share an identity.
pub open spec fn unique_ids(entities: Seq<EntityView>) -> bool {
    forall|i: int, j: int|
        0 <= i < j < entities.len() ==> (#[trigger] entities[i]).id != (
        #[trigger] entities[j]).id
}

/// Whether every entity of `entities` carries an identity.
pub open spec fn all_identified(entities: Seq<EntityView>) -> bool {
    forall|i: int| 0 <= i < entities.len() ==> (#[trigger] entities[i]).id.len() > 0
}

/// Whether no two entities of `entities` share a path.
pub open spec fn unique_paths(entities: Seq<EntityView>) -> bool {
    forall|i: int, j: int|
        0 <= i < j < entities.len() ==> (#[trigger] entities[i]).path != (
        #[trigger] entities[j]).path
}

/// Whether no two of `entities` share an identity.
pub fn check_unique_ids(entities: &Vec<Entity>) -> (ok: bool)
    ensures
        ok == unique_ids(entities_view(entities@)),
{
    let ghost views = entities_view(entities@);
    let mut j: usize = 0;
    while j < entities.len()
        invariant
            j <= entities.len(),
            views == entities_view(entities@),
            forall|a: int, b: int|
                0 <= a < b < j ==> (#[trigger] views[a]).id != (#[trigger] views[b]).id,
        decreases entities.len() - j,
    {
        let mut i: usize = 0;
        while i < j
            invariant
                i <= j < entities.len(),
                views == entities_view(entities@),
                forall|a: int| 0 <= a < i ==> (#[trigger] views[a]).id != views[j as int].id,
            decreases j - i,
        {
            if entities[i].id == entities[j].id {
                assert(views[i as int].id == views[j as int].id);
                return false;
            }
            i = i + 1;
        }
        j = j + 1;
    }
    true
}

/// Whether every one of `entities` carries an identity.
pub fn check_all_identified(entities: &Vec<Entity>) -> (ok: bool)
    ensures
        ok == all_identified(entities_view(entities@)),
{
    let ghost views = entities_view(entities@);
    let mut i: usize = 0;
    while i < entities.len()
        invariant
            i <= entities.len(),
            views == entities_view(entities@),
            forall|a: int| 0 <= a < i ==> (#[trigger] views[a]).id.len() > 0,
        decreases entities.len() - i,
    {
        if entities[i].id.as_str().unicode_len() == 0 {
            assert(views[i as int].id.len() == 0);
            return false;
        }
        i = i + 1;
    }
    true
}

/// Whether some entity of `entities` carries an identity.
pub open spec fn some_identified(entities: Seq<EntityView>) -> bool {
    exists|i: int| 0 <= i < entities.len() && (#[trigger] entities[i]).id.len() > 0
}

/// Whether no identity occurs twice in `entities`. Entities without an identity do not
/// count.
pub open spec fn unique_known_ids(entities: Seq<EntityView>) -> bool {
    forall|i: int, j: int|
        0 <= i < j < entities.len() && (#[trigger] entities[i]).id.len() > 0 ==> entities[i].id
            != (#[trigger] entities[j]).id
}

/// Whether some one of `entities` carries an identity.
pub fn check_some_identified(entities: &Vec<Entity>) -> (ok: bool)
    ensures
        ok == some_identified(entities_view(entities@)),
{
    let ghost views = entities_view(entities@);
    let mut i: usize = 0;
    while i < entities.len()
        invariant
            i <= entities.len(),
            views == entities_view(entities@),
            forall|a: int| 0 <= a < i ==> (#[trigger] views[a]).id.len() == 0,
        decreases entities.len() - i,
    {
        if entities[i].id.as_str().unicode_len() > 0 {
            assert(views[i as int].id.len() > 0);
            return true;
        }
        i = i + 1;
    }
    false
}

/// Whether no identity occurs twice in `entities`.
pub fn check_unique_known_ids(entities: &Vec<Entity>) -> (ok: bool)
    ensures
        ok == unique_known_ids(entities_view(entities@)),
{
    let ghost views = entities_view(entities@);
    let mut i: usize = 0;
    while i < entities.len()
        invariant
            i <= entities.len(),
            views == entities_view(entities@),
            forall|a: int, b: int|
                0 <= a < i && a < b < views.len() && (#[trigger] views[a]).id.len() > 0
                    ==> views[a].id != (#[trigger] views[b]).id,
        decreases entities.len() - i,
    {
        if entities[i].id.as_str().unicode_len() > 0 {
            let mut j: usize = i + 1;
            while j < entities.len()
                invariant
                    i < j <= entities.len(),
                    views == entities_view(entities@),
                    views[i as int].id.len() > 0,
                    forall|b: int| i < b < j ==> views[i as int].id != (#[trigger] views[b]).id,
                decreases entities.len() - j,
            {
                if entities[i].id == entities[j].id {
                    assert(views[i as int].id == views[j as int].id);
                    return false;
                }
                j = j + 1;
            }
        } else {
            assert(views[i as int].id.len() == 0);
        }
        i = i + 1;
    }
    true
}

/// Whether no two of `entities` share a path.
pub fn check_unique_paths(entities: &Vec<Entity>) -> (ok: bool)
    ensures
        ok == unique_paths(entities_view(entities@)),
{
    let ghost views = entities_view(entities@);
    let mut j: usize = 0;
    while j < entities.len()
        invariant
            j <= entities.len(),
            views == entities_view(entities@),
            forall|a: int, b: int|
                0 <= a < b < j ==> (#[trigger] views[a]).path != (#[trigger] views[b]).path,
        decreases entities.len() - j,
    {
        let mut i: usize = 0;
        while i < j
            invariant
                i <= j < entities.len(),
                views == entities_view(entities@),
                forall|a: int| 0 <= a < i ==> (#[trigger] views[a]).path != views[j as int].path,
            decreases j - i,
        {
            if entities[i].path == entities[j].path {
                assert(views[i as int].path == views[j as int].path);
                return false;
            }
            i = i + 1;
        }
        j = j + 1;
    }
    true
}

} // verus!
