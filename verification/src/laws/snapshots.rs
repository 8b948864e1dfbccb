//! Laws of the snapshots of well-formed trees.

use vstd::prelude::*;
use crate::entity::{entity_of, flatten_children, spec_flatten, spec_snapshot, EntityView};
use crate::plan::is_ancestor_path;
use crate::text::{last_slash, lemma_last_slash_append, spec_dir_of, spec_join};
use crate::tree::{sound_children, sound_node, valid_name, well_formed, TreeNode};

verus! {

/// Whether `path` is `top` or lies below it.
pub open spec fn at_or_under(top: Seq<char>, path: Seq<char>) -> bool {
    path == top || is_ancestor_path(top, path)
}

/// What lies below a path that lies at or below another path lies below that one too.
pub proof fn lemma_under_transitive(a: Seq<char>, b: Seq<char>, c: Seq<char>)
    requires
        at_or_under(a, b),
        is_ancestor_path(b, c),
    ensures
        is_ancestor_path(a, c),
{
    if a != b && a.len() > 0 {
        assert(c.subrange(0, a.len() as int) =~= b.subrange(0, a.len() as int)) by {
            assert(c.subrange(0, b.len() as int) == b);
            assert forall|i: int| 0 <= i < a.len() implies c[i] == b[i] by {
                assert(c.subrange(0, b.len() as int)[i] == b[i]);
            }
        }
        assert(c.subrange(0, b.len() as int)[a.len() as int] == b[a.len() as int]);
    }
}

/// The path of an entry called `name` in the directory at `parent` lies directly in that
/// directory: it is not empty, it does not begin with a separator unless `parent` does,
/// its directory part is `parent`, and it lies below `parent`.
pub proof fn lemma_join_facts(parent: Seq<char>, name: Seq<char>)
    requires
        valid_name(name),
        parent.len() > 0 ==> parent[0] != '/',
    ensures
        spec_join(parent, name).len() > 0,
        spec_join(parent, name)[0] != '/',
        spec_dir_of(spec_join(parent, name)) == parent,
        is_ancestor_path(parent, spec_join(parent, name)),
{
    let p = spec_join(parent, name);
    assert(name.contains(name[0]));
    if parent.len() == 0 {
        lemma_no_slash(name);
    } else {
        lemma_last_slash_append(parent, name);
        assert(p.subrange(0, parent.len() as int) =~= parent);
    }
}

/// A name without a separator has no last separator.
pub proof fn lemma_no_slash(name: Seq<char>)
    requires
        !name.contains('/'),
    ensures
        last_slash(name) == -1,
    decreases name.len(),
{
    if name.len() > 0 {
        assert(name.contains(name.last()));
        assert forall|c: char| name.drop_last().contains(c) implies name.contains(c) by {
            let i = choose|i: int| 0 <= i < name.drop_last().len() && name.drop_last()[i] == c;
            assert(name[i] == c);
        }
        lemma_no_slash(name.drop_last());
    }
}

/// Two entries of one directory whose names differ have nothing in common: no path lies
/// at or below both.
pub proof fn lemma_siblings_apart(
    parent: Seq<char>,
    first: Seq<char>,
    second: Seq<char>,
    path: Seq<char>,
)
    requires
        valid_name(first),
        valid_name(second),
        first != second,
        at_or_under(spec_join(parent, first), path),
    ensures
        !at_or_under(spec_join(parent, second), path),
{
    let a = spec_join(parent, first);
    let b = spec_join(parent, second);
    let k: int = if parent.len() == 0 {
        0
    } else {
        parent.len() as int + 1
    };
    assert(a.subrange(k, a.len() as int) =~= first);
    assert(b.subrange(k, b.len() as int) =~= second);
    if at_or_under(b, path) {
        // Both names start at `k` in `path`; each ends at the end of `path` or at a `/`.
        assert forall|i: int| 0 <= i < first.len() implies path[k + i] == first[i] by {
            if path != a {
                assert(path.subrange(0, a.len() as int)[k + i] == a[k + i]);
            }
            assert(a.subrange(k, a.len() as int)[i] == a[k + i]);
        }
        assert forall|i: int| 0 <= i < second.len() implies path[k + i] == second[i] by {
            if path != b {
                assert(path.subrange(0, b.len() as int)[k + i] == b[k + i]);
            }
            assert(b.subrange(k, b.len() as int)[i] == b[k + i]);
        }
        if first.len() < second.len() {
            assert(path != a);
            assert(path[a.len() as int] == '/');
            assert(second[first.len() as int] == '/');
            assert(second.contains('/'));
        } else if second.len() < first.len() {
            assert(path != b);
            assert(path[b.len() as int] == '/');
            assert(first[second.len() as int] == '/');
            assert(first.contains('/'));
        } else {
            assert(first =~= second);
        }
    }
}

/// Whether no two entities of `entities` share a path.
pub open spec fn distinct_paths(entities: Seq<EntityView>) -> bool {
    forall|i: int, j: int|
        0 <= i < j < entities.len() ==> (#[trigger] entities[i]).path != (
        #[trigger] entities[j]).path
}

/// Whether every entity of `entities` other than the first lies in a directory that is
/// among `entities` or is the directory at `top`.
pub open spec fn held(entities: Seq<EntityView>, top: Seq<char>) -> bool {
    forall|j: int|
        0 <= j < entities.len() ==> spec_dir_of((#[trigger] entities[j]).path) == top || exists|
            a: int,
        |
            0 <= a < entities.len() && (#[trigger] entities[a]).is_dir && entities[a].path
                == spec_dir_of(entities[j].path)
}

/// What holds of the flat listing of a sound subtree: every path lies at or below the
/// path of the subtree and is a relative path, no two entities share a path, and every
/// entity lies in a directory of the listing or, the top of the subtree, in the directory
/// that holds the subtree.
pub open spec fn orderly(entities: Seq<EntityView>, parent: Seq<char>, top: Seq<char>) -> bool {
    &&& forall|i: int|
        0 <= i < entities.len() ==> at_or_under(top, (#[trigger] entities[i]).path)
            && entities[i].path.len() > 0 && entities[i].path[0] != '/'
    &&& distinct_paths(entities)
    &&& held(entities, parent)
}

/// The flat listing of a sound subtree is orderly.
pub proof fn lemma_flatten_orderly(node: TreeNode, parent: Seq<char>)
    requires
        sound_node(node),
        valid_name(node.name@),
        parent.len() > 0 ==> parent[0] != '/',
    ensures
        orderly(spec_flatten(node, parent), parent, spec_join(parent, node.name@)),
        spec_flatten(node, parent).len() > 0,
        spec_flatten(node, parent)[0] == entity_of(node, parent),
    decreases node, 1nat,
{
    let top = spec_join(parent, node.name@);
    let me = entity_of(node, parent);
    let below = flatten_children(node.children@, top, node.children@.len());
    let all = spec_flatten(node, parent);
    lemma_join_facts(parent, node.name@);
    lemma_children_orderly(node.children@, top, node.children@.len(), node.is_dir);
    assert(all =~= seq![me] + below);
    assert forall|i: int| 0 <= i < all.len() implies at_or_under(top, (#[trigger] all[i]).path)
        && all[i].path.len() > 0 && all[i].path[0] != '/' by {
        if i > 0 {
            assert(all[i] == below[i - 1]);
        }
    }
    assert forall|i: int, j: int| 0 <= i < j < all.len() implies (#[trigger] all[i]).path != (
    #[trigger] all[j]).path by {
        assert(all[j] == below[j - 1]);
        if i > 0 {
            assert(all[i] == below[i - 1]);
        }
    }
    assert forall|j: int| 0 <= j < all.len() implies spec_dir_of((#[trigger] all[j]).path)
        == parent || exists|a: int|
        0 <= a < all.len() && (#[trigger] all[a]).is_dir && all[a].path == spec_dir_of(
            all[j].path,
        ) by {
        if j > 0 {
            assert(all[j] == below[j - 1]);
            if spec_dir_of(below[j - 1].path) == top {
                assert(below.len() > 0);
                assert(node.is_dir);
                assert(all[0].is_dir && all[0].path == top);
            } else {
                let a = choose|a: int|
                    0 <= a < below.len() && (#[trigger] below[a]).is_dir && below[a].path
                        == spec_dir_of(below[j - 1].path);
                assert(all[a + 1] == below[a]);
            }
        }
    }
}

/// The flat listing of the first `n` sound children of a directory is orderly below that
/// directory: every path lies strictly below the directory and within the subtree of one
/// of the children, and no two entities share a path. A file has no children.
pub proof fn lemma_children_orderly(
    children: Seq<TreeNode>,
    parent: Seq<char>,
    n: nat,
    parent_is_dir: bool,
)
    requires
        n <= children.len(),
        sound_children(children, children.len()),
        crate::tree::distinct_names(children),
        !parent_is_dir ==> children.len() == 0,
        parent.len() > 0 ==> parent[0] != '/',
    ensures
        ({
            let below = flatten_children(children, parent, n);
            &&& forall|i: int|
                0 <= i < below.len() ==> is_ancestor_path(parent, (#[trigger] below[i]).path)
                    && below[i].path.len() > 0 && below[i].path[0] != '/' && exists|k: int|
                    0 <= k < n && at_or_under(
                        spec_join(parent, (#[trigger] children[k]).name@),
                        below[i].path,
                    )
            &&& distinct_paths(below)
            &&& held(below, parent)
            &&& below.len() > 0 ==> parent_is_dir
        }),
    decreases children, n,
{
    let below = flatten_children(children, parent, n);
    if n > 0 {
        let before = flatten_children(children, parent, (n - 1) as nat);
        let child = children[n - 1];
        let sub = spec_flatten(child, parent);
        let top = spec_join(parent, child.name@);
        lemma_children_orderly(children, parent, (n - 1) as nat, parent_is_dir);
        crate::tree::lemma_sound_children_prefix(children, n, children.len());
        lemma_flatten_orderly(child, parent);
        lemma_join_facts(parent, child.name@);
        assert(below =~= before + sub);
        assert forall|i: int| 0 <= i < below.len() implies is_ancestor_path(
            parent,
            (#[trigger] below[i]).path,
        ) && below[i].path.len() > 0 && below[i].path[0] != '/' && exists|k: int|
            0 <= k < n && at_or_under(
                spec_join(parent, (#[trigger] children[k]).name@),
                below[i].path,
            ) by {
            if i < before.len() {
                assert(below[i] == before[i]);
            } else {
                let e = sub[i - before.len()];
                assert(below[i] == e);
                assert(at_or_under(top, e.path));
                if e.path != top {
                    lemma_under_transitive(parent, top, e.path);
                }
                assert(at_or_under(spec_join(parent, children[n - 1].name@), e.path));
            }
        }
        assert forall|i: int, j: int| 0 <= i < j < below.len() implies (#[trigger] below[i]).path
            != (#[trigger] below[j]).path by {
            if j < before.len() {
                assert(below[i] == before[i] && below[j] == before[j]);
            } else if i >= before.len() {
                assert(below[i] == sub[i - before.len()] && below[j] == sub[j - before.len()]);
            } else {
                assert(below[i] == before[i] && below[j] == sub[j - before.len()]);
                let k = choose|k: int|
                    0 <= k < n - 1 && at_or_under(
                        spec_join(parent, (#[trigger] children[k]).name@),
                        before[i].path,
                    );
                crate::tree::lemma_sound_children_prefix(children, (k + 1) as nat, children.len());
                assert(children[k].name@ != children[n - 1].name@);
                lemma_siblings_apart(parent, children[k].name@, child.name@, before[i].path);
            }
        }
        assert forall|j: int| 0 <= j < below.len() implies spec_dir_of((#[trigger] below[j]).path)
            == parent || exists|a: int|
            0 <= a < below.len() && (#[trigger] below[a]).is_dir && below[a].path == spec_dir_of(
                below[j].path,
            ) by {
            if j < before.len() {
                assert(below[j] == before[j]);
                if spec_dir_of(before[j].path) != parent {
                    let a = choose|a: int|
                        0 <= a < before.len() && (#[trigger] before[a]).is_dir && before[a].path
                            == spec_dir_of(before[j].path);
                    assert(below[a] == before[a]);
                }
            } else {
                let e = sub[j - before.len()];
                assert(below[j] == e);
                if spec_dir_of(e.path) != parent {
                    let a = choose|a: int|
                        0 <= a < sub.len() && (#[trigger] sub[a]).is_dir && sub[a].path
                            == spec_dir_of(e.path);
                    assert(below[before.len() + a] == sub[a]);
                }
            }
        }
    }
}

/// Whether `snapshot` is closed: it begins with the root, a directory with the empty
/// path; every other path is relative; no two entities share a path; and every entity
/// below the root lies in a directory of the snapshot.
pub open spec fn closed_snapshot(snapshot: Seq<EntityView>) -> bool {
    &&& snapshot.len() > 0
    &&& snapshot[0].path.len() == 0
    &&& snapshot[0].is_dir
    &&& crate::laws::plans::relative_paths(snapshot)
    &&& crate::entity::unique_paths(snapshot)
    &&& forall|j: int|
        0 < j < snapshot.len() ==> exists|a: int|
            0 <= a < snapshot.len() && (#[trigger] snapshot[a]).is_dir && snapshot[a].path
                == spec_dir_of((#[trigger] snapshot[j]).path)
}

/// The snapshot of a well-formed tree is closed.
pub proof fn lemma_snapshot_closed(root: TreeNode)
    requires
        well_formed(root),
    ensures
        closed_snapshot(spec_snapshot(root)),
{
    let top = Seq::<char>::empty();
    let me = EntityView { id: root.id@, path: top, is_dir: root.is_dir };
    let below = flatten_children(root.children@, top, root.children@.len());
    let all = spec_snapshot(root);
    lemma_children_orderly(root.children@, top, root.children@.len(), true);
    assert(all =~= seq![me] + below);
    assert forall|j: int| 0 < j < all.len() implies (#[trigger] all[j]).path.len() > 0
        && all[j].path[0] != '/' by {
        assert(all[j] == below[j - 1]);
    }
    assert forall|i: int, j: int| 0 <= i < j < all.len() implies (#[trigger] all[i]).path != (
    #[trigger] all[j]).path by {
        assert(all[j] == below[j - 1]);
        if i > 0 {
            assert(all[i] == below[i - 1]);
        }
    }
    assert forall|j: int| 0 < j < all.len() implies exists|a: int|
        0 <= a < all.len() && (#[trigger] all[a]).is_dir && all[a].path == spec_dir_of(
            (#[trigger] all[j]).path,
        ) by {
        assert(all[j] == below[j - 1]);
        if spec_dir_of(below[j - 1].path) == top {
            assert(all[0].is_dir && all[0].path == top);
        } else {
            let a = choose|a: int|
                0 <= a < below.len() && (#[trigger] below[a]).is_dir && below[a].path
                    == spec_dir_of(below[j - 1].path);
            assert(all[a + 1] == below[a]);
        }
    }
    assert(all[0] == me);
}

/// In the flat listing of a sound subtree no path occurs twice, so that the listing can
/// be keyed by path: each path stands for one entity.
pub proof fn lemma_paths_are_keys(node: TreeNode, parent: Seq<char>)
    requires
        sound_node(node),
        valid_name(node.name@),
        parent.len() > 0 ==> parent[0] != '/',
    ensures
        crate::entity::unique_paths(spec_flatten(node, parent)),
        forall|i: int, j: int|
            0 <= i < j < spec_flatten(node, parent).len() ==> (#[trigger] crate::entity::path_ids(
                spec_flatten(node, parent),
            )[i]).0 != (#[trigger] crate::entity::path_ids(spec_flatten(node, parent))[j]).0,
        forall|i: int, j: int|
            0 <= i < j < spec_flatten(node, parent).len() ==> (
            #[trigger] crate::entity::path_kinds(spec_flatten(node, parent))[i]).0 != (
            #[trigger] crate::entity::path_kinds(spec_flatten(node, parent))[j]).0,
{
    lemma_flatten_orderly(node, parent);
    let flat = spec_flatten(node, parent);
    assert forall|i: int, j: int| 0 <= i < j < flat.len() implies (#[trigger] flat[i]).path != (
    #[trigger] flat[j]).path by {}
}

/// In the flat listing of a subtree whose identities are all different no identity occurs
/// twice, so that the listing can be keyed by identity.
pub proof fn lemma_identities_are_keys(node: TreeNode, parent: Seq<char>)
    requires
        crate::identity::all_different(crate::identity::ids_of(node)),
    ensures
        crate::entity::unique_ids(spec_flatten(node, parent)),
{
    crate::identity::lemma_flatten_ids(node, parent);
    let flat = spec_flatten(node, parent);
    let ids = crate::identity::ids_of(node);
    assert(crate::identity::ids_listed(flat).len() == flat.len());
    assert forall|i: int, j: int| 0 <= i < j < flat.len() implies (#[trigger] flat[i]).id != (
    #[trigger] flat[j]).id by {
        assert(crate::identity::ids_listed(flat)[i] == flat[i].id);
        assert(crate::identity::ids_listed(flat)[j] == flat[j].id);
    }
}

} // verus!
