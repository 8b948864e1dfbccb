//! Reconciliation from end to end: two trees in, an ordered plan out.

use vstd::prelude::*;
use crate::entity::{
    all_identified,
    check_all_identified,
    check_some_identified,
    check_unique_known_ids,
    check_unique_paths,
    entities_view,
    unique_paths,
    snapshot,
    some_identified,
    spec_snapshot,
    unique_known_ids,
    Entity,
    EntityView,
};
use crate::error::{spec_malformed, AppError, AppErrorView};
use crate::fuzzy::{resolve_by_structure, structural_matches};
use crate::operation::{ops_view, FileOperation, OpView};
use crate::plan::{plan_operations, shield, spec_safe_plan};
use crate::resolve::{identity_matches, resolve_by_identity, Match};
use crate::tree::{validate_tree, well_formed, TreeNode};

verus! {

/// Whether two snapshots are paired by identity: every entity of the original one carries
/// an identity and some entity of the modified one does. A modified entity without an
/// identity is then a new entity.
pub open spec fn by_identity(original: Seq<EntityView>, modified: Seq<EntityView>) -> bool {
    all_identified(original) && some_identified(modified)
}

/// The correspondence between two snapshots: by identity where identities are there to
/// go by, by structure otherwise.
pub open spec fn spec_correspondence(original: Seq<EntityView>, modified: Seq<EntityView>) -> Seq<
    Match,
> {
    if by_identity(original, modified) {
        identity_matches(original, modified, modified.len())
    } else {
        structural_matches(original, modified)
    }
}

/// Pairs the entities of two snapshots, by identity where identities are there to go by,
/// by structure otherwise.
pub fn correspondence(original: &Vec<Entity>, modified: &Vec<Entity>) -> (matches: Vec<Match>)
    ensures
        matches@ == spec_correspondence(entities_view(original@), entities_view(modified@)),
{
    if check_all_identified(original) && check_some_identified(modified) {
        resolve_by_identity(original, modified)
    } else {
        resolve_by_structure(original, modified)
    }
}

/// The message with which a tree is rejected whose root is a directory or not.
pub open spec fn rejection(root_is_dir: bool) -> Seq<char> {
    if root_is_dir {
        "Invalid tree structure"@
    } else {
        "Root must be a directory"@
    }
}

/// What reconciling the tree `original` with the tree `modified` under the working
/// directory `root` yields.
///
/// A tree that is not well formed is rejected as malformed, the original before the
/// modified. So are two trees that are paired by identity when an identity occurs twice in
/// one of them. Otherwise the result is the plan for the snapshots of the two trees and
/// their correspondence, without the operations that would touch a place that belongs to
/// the keeping of backups.
pub open spec fn spec_reconcile(root: Seq<char>, original: TreeNode, modified: TreeNode) -> Result<
    Seq<OpView>,
    AppErrorView,
> {
    let o = spec_snapshot(original);
    let m = spec_snapshot(modified);
    if !well_formed(original) {
        Err(spec_malformed(rejection(original.is_dir)))
    } else if !well_formed(modified) {
        Err(spec_malformed(rejection(modified.is_dir)))
    } else if by_identity(o, m) && !(unique_known_ids(o) && unique_known_ids(m)) {
        Err(spec_malformed("Duplicate identity"@))
    } else {
        Ok(spec_safe_plan(root, o, m, spec_correspondence(o, m)))
    }
}

/// Plans the operations that turn the tree `original` into the tree `modified`, both
/// snapshots of the working directory `root`.
pub fn reconcile(root: &str, original: &TreeNode, modified: &TreeNode) -> (r: Result<
    Vec<FileOperation>,
    AppError,
>)
    ensures
        match spec_reconcile(root@, *original, *modified) {
            Ok(plan) => r matches Ok(ops) && ops_view(ops@) == plan,
            Err(e) => r matches Err(err) && err@ == e,
        },
{
    match validate_tree(original) {
        Err(e) => {
            return Err(e);
        },
        Ok(_) => {},
    }
    match validate_tree(modified) {
        Err(e) => {
            return Err(e);
        },
        Ok(_) => {},
    }
    let o = snapshot(original);
    let m = snapshot(modified);
    if check_all_identified(&o) && check_some_identified(&m) {
        if !(check_unique_known_ids(&o) && check_unique_known_ids(&m)) {
            return Err(AppError::malformed("Duplicate identity"));
        }
    }
    let matches = correspondence(&o, &m);
    let plan = plan_operations(root, &o, &m, &matches);
    Ok(shield(root, &plan))
}

/// The path below the root of an entity that is listed under `path`, where the root is
/// listed under `root`: `path` without the name of the root and the separator behind it.
/// A path that does not begin with them stays as it is.
pub open spec fn below_root(root: Seq<char>, path: Seq<char>) -> Seq<char> {
    if path.len() > root.len() && path.subrange(0, root.len() as int) == root && path[root.len() as int]
        == '/' {
        path.subrange(root.len() as int + 1, path.len() as int)
    } else {
        path
    }
}

/// The path below the root of an entity that is listed under `path`.
pub fn path_below_root(root: &Vec<char>, path: &str) -> (r: String)
    ensures
        r@ == below_root(root@, path@),
{
    let p = crate::text::chars_of(path);
    if p.len() <= root.len() {
        return path.to_owned();
    }
    let head = crate::text::chars_between(&p, 0, root.len());
    if crate::text::same_chars(&head, root) && p[root.len()] == '/' {
        crate::text::string_of(&p, root.len() + 1, p.len())
    } else {
        path.to_owned()
    }
}

/// The snapshot that a listing stands for: its first entry is the root, which gets the
/// empty path; every other entry gets its path below the root. Kinds and identities stay
/// as they are.
pub open spec fn spec_rooted(listing: Seq<EntityView>) -> Seq<EntityView> {
    Seq::new(
        listing.len(),
        |k: int|
            EntityView {
                id: listing[k].id,
                path: if k == 0 {
                    Seq::empty()
                } else {
                    below_root(listing[0].path, listing[k].path)
                },
                is_dir: listing[k].is_dir,
            },
    )
}

/// Turns a listing, whose first entry names the root, into a snapshot.
pub fn rooted(listing: &Vec<Entity>) -> (out: Vec<Entity>)
    ensures
        entities_view(out@) == spec_rooted(entities_view(listing@)),
{
    let mut out: Vec<Entity> = Vec::new();
    if listing.len() == 0 {
        assert(entities_view(out@) =~= spec_rooted(entities_view(listing@)));
        return out;
    }
    let root = crate::text::chars_of(listing[0].path.as_str());
    let mut k: usize = 0;
    while k < listing.len()
        invariant
            k <= listing.len(),
            listing.len() > 0,
            out.len() == k,
            root@ == entities_view(listing@)[0].path,
            forall|l: int|
                0 <= l < k ==> (#[trigger] out@[l])@ == spec_rooted(entities_view(listing@))[l],
        decreases listing.len() - k,
    {
        let path = if k == 0 {
            String::new()
        } else {
            path_below_root(&root, listing[k].path.as_str())
        };
        out.push(Entity { id: listing[k].id.clone(), path, is_dir: listing[k].is_dir });
        k = k + 1;
    }
    assert(entities_view(out@) =~= spec_rooted(entities_view(listing@)));
    out
}

/// The operations that bring the working directory `target_dir` back to what a backup
/// recorded: the plan that turns the snapshot `current` into the snapshot that the
/// listing `backup_entities` stands for, the two paired by structure, without the
/// operations that would touch a place that belongs to the keeping of backups.
pub fn generate_restore_operations(
    target_dir: &str,
    current: &Vec<Entity>,
    backup_entities: &Vec<Entity>,
) -> (ops: Vec<FileOperation>)
    ensures
        ops_view(ops@) == spec_safe_plan(
            target_dir@,
            entities_view(current@),
            spec_rooted(entities_view(backup_entities@)),
            structural_matches(
                entities_view(current@),
                spec_rooted(entities_view(backup_entities@)),
            ),
        ),
{
    let recorded = rooted(backup_entities);
    let matches = resolve_by_structure(current, &recorded);
    let plan = plan_operations(target_dir, current, &recorded, &matches);
    shield(target_dir, &plan)
}

/// The error for a working directory that is not there.
pub open spec fn spec_missing_root(root: Seq<char>) -> AppErrorView {
    AppErrorView {
        error_type: crate::error::ErrorType::FileNotFound,
        message: "Path does not exist: "@ + root,
        path: Some(root),
        recoverable: false,
    }
}

/// Plans the operations that turn the tree `original` into the tree `modified`, both
/// snapshots of the working directory `root`, which the caller found to be there or not.
///
/// Where the working directory is not there, nothing is planned and the error says so,
/// whatever the trees are. Otherwise the result is that of `reconcile`.
pub fn reconcile_at(root: &str, root_exists: bool, original: &TreeNode, modified: &TreeNode) -> (r:
    Result<Vec<FileOperation>, AppError>)
    ensures
        !root_exists ==> (r matches Err(e) && e@ == spec_missing_root(root@)),
        root_exists ==> match spec_reconcile(root@, *original, *modified) {
            Ok(plan) => r matches Ok(ops) && ops_view(ops@) == plan,
            Err(e) => r matches Err(err) && err@ == e,
        },
{
    if !root_exists {
        return Err(
            AppError {
                error_type: crate::error::ErrorType::FileNotFound,
                message: crate::text::concat2("Path does not exist: ", root),
                path: Some(root.to_owned()),
                recoverable: false,
            },
        );
    }
    reconcile(root, original, modified)
}

/// The snapshot that a listing of paths and kinds stands for: its first entry is the
/// root, which gets the empty path; every other entry gets its path below the root. No
/// entity has an identity.
pub open spec fn spec_unnamed(listing: Seq<(Seq<char>, bool)>) -> Seq<EntityView> {
    Seq::new(
        listing.len(),
        |k: int|
            EntityView {
                id: Seq::empty(),
                path: if k == 0 {
                    Seq::empty()
                } else {
                    below_root(listing[0].0, listing[k].0)
                },
                is_dir: listing[k].1,
            },
    )
}

/// Turns a listing of paths and kinds, whose first entry names the root, into a snapshot
/// without identities.
pub fn unnamed(listing: &Vec<(String, bool)>) -> (out: Vec<Entity>)
    ensures
        entities_view(out@) == spec_unnamed(crate::entity::kinds_view(listing@)),
{
    let mut out: Vec<Entity> = Vec::new();
    if listing.len() == 0 {
        assert(entities_view(out@) =~= spec_unnamed(crate::entity::kinds_view(listing@)));
        return out;
    }
    let root = crate::text::chars_of(listing[0].0.as_str());
    let mut k: usize = 0;
    while k < listing.len()
        invariant
            k <= listing.len(),
            listing.len() > 0,
            out.len() == k,
            root@ == crate::entity::kinds_view(listing@)[0].0,
            forall|l: int|
                0 <= l < k ==> (#[trigger] out@[l])@ == spec_unnamed(
                    crate::entity::kinds_view(listing@),
                )[l],
        decreases listing.len() - k,
    {
        let path = if k == 0 {
            String::new()
        } else {
            path_below_root(&root, listing[k].0.as_str())
        };
        out.push(Entity { id: String::new(), path, is_dir: listing[k].1 });
        k = k + 1;
    }
    assert(entities_view(out@) =~= spec_unnamed(crate::entity::kinds_view(listing@)));
    out
}

/// What reconciling the tree that the text `original` describes with the tree that the
/// text `modified` describes yields, under the working directory `root`.
///
/// A text that lists no tree is rejected as malformed, with the reason that the reading
/// gives, the original before the modified; so are two texts of which one lists two
/// entities at one path below the root. Otherwise the result is the plan for the
/// snapshots that the two texts list, paired by structure, without the operations that
/// would touch a place that belongs to the keeping of backups.
pub open spec fn spec_reconcile_texts(root: Seq<char>, original: Seq<char>, modified: Seq<char>)
    -> Result<Seq<OpView>, AppErrorView> {
    match crate::treetext::spec_parse_tree_text(original) {
        Err(reason) => Err(spec_malformed(reason)),
        Ok(o) => match crate::treetext::spec_parse_tree_text(modified) {
            Err(reason) => Err(spec_malformed(reason)),
            Ok(m) => if !(unique_paths(spec_unnamed(o)) && unique_paths(spec_unnamed(m))) {
                Err(spec_malformed("Duplicate path"@))
            } else {
                Ok(
                    spec_safe_plan(
                        root,
                        spec_unnamed(o),
                        spec_unnamed(m),
                        structural_matches(spec_unnamed(o), spec_unnamed(m)),
                    ),
                )
            },
        },
    }
}

/// Plans the operations that turn the tree that the text `original` describes into the
/// tree that the text `modified` describes, both snapshots of the working directory
/// `root`. The texts carry no identities, so the trees are paired by structure.
pub fn reconcile_texts(root: &str, original: &str, modified: &str) -> (r: Result<
    Vec<FileOperation>,
    AppError,
>)
    ensures
        match spec_reconcile_texts(root@, original@, modified@) {
            Ok(plan) => r matches Ok(ops) && ops_view(ops@) == plan,
            Err(e) => r matches Err(err) && err@ == e,
        },
{
    let o = match crate::treetext::parse_tree_text(original) {
        Ok(listing) => unnamed(&listing),
        Err(message) => {
            return Err(AppError::malformed(message.as_str()));
        },
    };
    let m = match crate::treetext::parse_tree_text(modified) {
        Ok(listing) => unnamed(&listing),
        Err(message) => {
            return Err(AppError::malformed(message.as_str()));
        },
    };
    if !(check_unique_paths(&o) && check_unique_paths(&m)) {
        return Err(AppError::malformed("Duplicate path"));
    }
    let matches = resolve_by_structure(&o, &m);
    let plan = plan_operations(root, &o, &m, &matches);
    Ok(shield(root, &plan))
}

} // verus!
