//! Laws of every plan.

use vstd::prelude::*;
use crate::entity::EntityView;
use crate::laws::order::{
    lemma_deepest_first_members,
    lemma_deepest_first_permutes,
    lemma_deepest_first_sorted,
    lemma_from_depth_down_keeps_order,
    lemma_max_depth,
};
use crate::operation::OpView;
use crate::plan::{
    creation_at,
    creations,
    deepest_first,
    deletions,
    depth_key,
    max_depth,
    moves,
    rename_of,
    renames,
    spec_absolute,
    spec_plan,
};
use crate::resolve::{is_correspondence, original_matched, Match};
use crate::text::{last_slash, lemma_last_slash, lemma_last_slash_joined, spec_dir_of};

verus! {

/// Every creation of the plan is the creation that some modified entity calls for.
pub proof fn lemma_creations_members(
    root: Seq<char>,
    original: Seq<EntityView>,
    modified: Seq<EntityView>,
    matches: Seq<Match>,
    n: nat,
)
    requires
        n <= modified.len(),
    ensures
        forall|x: OpView| #[trigger]
            creations(root, original, modified, matches, n).contains(x) <==> exists|j: int|
                0 <= j < n && creation_at(root, original, modified, matches, j) == Some(x),
    decreases n,
{
    let now = creations(root, original, modified, matches, n);
    if n > 0 {
        let before = creations(root, original, modified, matches, (n - 1) as nat);
        lemma_creations_members(root, original, modified, matches, (n - 1) as nat);
        assert forall|x: OpView| #[trigger]
            now.contains(x) <==> exists|j: int|
                0 <= j < n && creation_at(root, original, modified, matches, j) == Some(x) by {
            if now.contains(x) {
                let p = choose|p: int| 0 <= p < now.len() && now[p] == x;
                if p < before.len() {
                    assert(before[p] == x);
                    assert(before.contains(x));
                } else {
                    assert(creation_at(root, original, modified, matches, n - 1) == Some(x));
                }
            }
            if exists|j: int|
                0 <= j < n && creation_at(root, original, modified, matches, j) == Some(x) {
                let j = choose|j: int|
                    0 <= j < n && creation_at(root, original, modified, matches, j) == Some(x);
                if j < n - 1 {
                    assert(before.contains(x));
                    let p = choose|p: int| 0 <= p < before.len() && before[p] == x;
                    assert(now[p] == x);
                } else {
                    assert(now[now.len() - 1] == x);
                }
            }
        }
    } else {
        assert forall|x: OpView| !(#[trigger] now.contains(x)) by {}
    }
}

/// Every rename of the plan is the rename of a match that moves its entity.
pub proof fn lemma_renames_members(
    root: Seq<char>,
    original: Seq<EntityView>,
    modified: Seq<EntityView>,
    matches: Seq<Match>,
    n: nat,
)
    requires
        n <= matches.len(),
    ensures
        forall|x: OpView| #[trigger]
            renames(root, original, modified, matches, n).contains(x) <==> exists|k: int|
                0 <= k < n && moves(original, modified, matches[k]) && rename_of(
                    root,
                    original,
                    modified,
                    matches[k],
                ) == x,
    decreases n,
{
    let now = renames(root, original, modified, matches, n);
    if n > 0 {
        let before = renames(root, original, modified, matches, (n - 1) as nat);
        lemma_renames_members(root, original, modified, matches, (n - 1) as nat);
        assert forall|x: OpView| #[trigger]
            now.contains(x) <==> exists|k: int|
                0 <= k < n && moves(original, modified, matches[k]) && rename_of(
                    root,
                    original,
                    modified,
                    matches[k],
                ) == x by {
            if now.contains(x) {
                let p = choose|p: int| 0 <= p < now.len() && now[p] == x;
                if p < before.len() {
                    assert(before[p] == x);
                    assert(before.contains(x));
                } else {
                    assert(moves(original, modified, matches[n - 1]));
                }
            }
            if exists|k: int|
                0 <= k < n && moves(original, modified, matches[k]) && rename_of(
                    root,
                    original,
                    modified,
                    matches[k],
                ) == x {
                let k = choose|k: int|
                    0 <= k < n && moves(original, modified, matches[k]) && rename_of(
                        root,
                        original,
                        modified,
                        matches[k],
                    ) == x;
                if k < n - 1 {
                    assert(before.contains(x));
                    let p = choose|p: int| 0 <= p < before.len() && before[p] == x;
                    assert(now[p] == x);
                } else {
                    assert(now[now.len() - 1] == x);
                }
            }
        }
    } else {
        assert forall|x: OpView| !(#[trigger] now.contains(x)) by {}
    }
}

/// Every deletion of the plan is that of an unmatched original entity below the root.
pub proof fn lemma_deletions_members(
    root: Seq<char>,
    original: Seq<EntityView>,
    matches: Seq<Match>,
    n: nat,
)
    requires
        n <= original.len(),
    ensures
        forall|x: OpView| #[trigger]
            deletions(root, original, matches, n).contains(x) <==> exists|i: int|
                0 < i < n && !original_matched(matches, i) && x == (OpView::Delete {
                    path: spec_absolute(root, original[i].path),
                }),
    decreases n,
{
    let now = deletions(root, original, matches, n);
    if n > 0 {
        let before = deletions(root, original, matches, (n - 1) as nat);
        lemma_deletions_members(root, original, matches, (n - 1) as nat);
        assert forall|x: OpView| #[trigger]
            now.contains(x) <==> exists|i: int|
                0 < i < n && !original_matched(matches, i) && x == (OpView::Delete {
                    path: spec_absolute(root, original[i].path),
                }) by {
            if now.contains(x) {
                let p = choose|p: int| 0 <= p < now.len() && now[p] == x;
                if p < before.len() {
                    assert(before[p] == x);
                    assert(before.contains(x));
                } else {
                    assert(!original_matched(matches, n - 1));
                }
            }
            if exists|i: int|
                0 < i < n && !original_matched(matches, i) && x == (OpView::Delete {
                    path: spec_absolute(root, original[i].path),
                }) {
                let i = choose|i: int|
                    0 < i < n && !original_matched(matches, i) && x == (OpView::Delete {
                        path: spec_absolute(root, original[i].path),
                    });
                if i < n - 1 {
                    assert(before.contains(x));
                    let p = choose|p: int| 0 <= p < before.len() && before[p] == x;
                    assert(now[p] == x);
                } else {
                    assert(now[now.len() - 1] == x);
                }
            }
        }
    } else {
        assert forall|x: OpView| !(#[trigger] now.contains(x)) by {}
    }
}

/// The three phases of a plan follow one another: a creation never comes after a rename
/// or a deletion, and a rename never comes after a deletion.
pub proof fn lemma_phases_in_order(
    root: Seq<char>,
    original: Seq<EntityView>,
    modified: Seq<EntityView>,
    matches: Seq<Match>,
    p: int,
    q: int,
)
    requires
        0 <= p < q < spec_plan(root, original, modified, matches).len(),
    ensures
        ({
            let plan = spec_plan(root, original, modified, matches);
            &&& plan[p] is Delete ==> plan[q] is Delete
            &&& plan[p] is Rename ==> plan[q] is Rename || plan[q] is Delete
        }),
{
    let plan = spec_plan(root, original, modified, matches);
    let c = creations(root, original, modified, matches, modified.len());
    let r = deepest_first(renames(root, original, modified, matches, matches.len()));
    let d = deepest_first(deletions(root, original, matches, original.len()));
    lemma_creations_members(root, original, modified, matches, modified.len());
    lemma_renames_members(root, original, modified, matches, matches.len());
    lemma_deletions_members(root, original, matches, original.len());
    lemma_deepest_first_members(renames(root, original, modified, matches, matches.len()));
    lemma_deepest_first_members(deletions(root, original, matches, original.len()));
    assert forall|x: int| 0 <= x < c.len() implies (#[trigger] c[x]) is CreateDir || c[x] is CreateFile by {
        assert(c.contains(c[x]));
    }
    assert forall|x: int| 0 <= x < r.len() implies (#[trigger] r[x]) is Rename by {
        assert(r.contains(r[x]));
    }
    assert forall|x: int| 0 <= x < d.len() implies (#[trigger] d[x]) is Delete by {
        assert(d.contains(d[x]));
    }
    if p < c.len() {
        assert(plan[p] == c[p]);
    } else if p < c.len() + r.len() {
        assert(plan[p] == r[p - c.len()]);
        if q < c.len() + r.len() {
            assert(plan[q] == r[q - c.len()]);
        } else {
            assert(plan[q] == d[q - c.len() - r.len()]);
        }
    } else {
        assert(plan[p] == d[p - c.len() - r.len()]);
        assert(plan[q] == d[q - c.len() - r.len()]);
    }
}

/// Within the renames of a plan, and within its deletions, no operation is deeper than
/// one before it.
pub proof fn lemma_depth_descends(
    root: Seq<char>,
    original: Seq<EntityView>,
    modified: Seq<EntityView>,
    matches: Seq<Match>,
    p: int,
    q: int,
)
    requires
        0 <= p < q < spec_plan(root, original, modified, matches).len(),
    ensures
        ({
            let plan = spec_plan(root, original, modified, matches);
            &&& plan[p] is Rename && plan[q] is Rename ==> depth_key(plan[p]) >= depth_key(
                plan[q],
            )
            &&& plan[p] is Delete && plan[q] is Delete ==> depth_key(plan[p]) >= depth_key(
                plan[q],
            )
        }),
{
    let plan = spec_plan(root, original, modified, matches);
    let c = creations(root, original, modified, matches, modified.len());
    let r = deepest_first(renames(root, original, modified, matches, matches.len()));
    let d = deepest_first(deletions(root, original, matches, original.len()));
    lemma_creations_members(root, original, modified, matches, modified.len());
    lemma_renames_members(root, original, modified, matches, matches.len());
    lemma_deletions_members(root, original, matches, original.len());
    lemma_deepest_first_members(renames(root, original, modified, matches, matches.len()));
    lemma_deepest_first_members(deletions(root, original, matches, original.len()));
    lemma_deepest_first_sorted(renames(root, original, modified, matches, matches.len()));
    lemma_deepest_first_sorted(deletions(root, original, matches, original.len()));
    assert forall|x: int| 0 <= x < c.len() implies (#[trigger] c[x]) is CreateDir || c[x] is CreateFile by {
        assert(c.contains(c[x]));
    }
    assert forall|x: int| 0 <= x < r.len() implies (#[trigger] r[x]) is Rename by {
        assert(r.contains(r[x]));
    }
    assert forall|x: int| 0 <= x < d.len() implies (#[trigger] d[x]) is Delete by {
        assert(d.contains(d[x]));
    }
    if p < c.len() {
        assert(plan[p] == c[p]);
    } else if p < c.len() + r.len() {
        assert(plan[p] == r[p - c.len()]);
        if q < c.len() + r.len() {
            assert(plan[q] == r[q - c.len()]);
        } else {
            assert(plan[q] == d[q - c.len() - r.len()]);
        }
    } else {
        assert(plan[p] == d[p - c.len() - r.len()]);
        assert(plan[q] == d[q - c.len() - r.len()]);
    }
}

/// Whether every path below the root of `snapshot` is a relative path: not empty and
/// not beginning with a separator.
pub open spec fn relative_paths(snapshot: Seq<EntityView>) -> bool {
    forall|j: int|
        0 < j < snapshot.len() ==> (#[trigger] snapshot[j]).path.len() > 0 && snapshot[j].path[0]
            != '/'
}

/// The directory part of a place under the working directory is the place of the
/// directory part.
pub proof fn lemma_dir_of_absolute(root: Seq<char>, rel: Seq<char>)
    requires
        rel.len() > 0,
        rel[0] != '/',
    ensures
        spec_dir_of(spec_absolute(root, rel)) == spec_absolute(root, spec_dir_of(rel)),
{
    lemma_last_slash(rel);
    lemma_last_slash_joined(root, rel);
    let p = root + seq!['/'] + rel;
    if last_slash(rel) > 0 {
        assert(p.subrange(0, last_slash(p)) =~= root + seq!['/'] + rel.subrange(
            0,
            last_slash(rel),
        ));
    } else {
        assert(p.subrange(0, root.len() as int) =~= root);
    }
}

/// Whether `path` lies inside the directory `root`: it continues `root` with a `/` and
/// at least one more character.
pub open spec fn lies_inside(root: Seq<char>, path: Seq<char>) -> bool {
    path.len() > root.len() + 1 && path.subrange(0, root.len() as int + 1) == root + seq!['/']
}

/// The place of a relative path lies inside the working directory.
pub proof fn lemma_absolute_inside(root: Seq<char>, rel: Seq<char>)
    requires
        rel.len() > 0,
    ensures
        lies_inside(root, spec_absolute(root, rel)),
{
    assert((root + seq!['/'] + rel).subrange(0, root.len() as int + 1) =~= root + seq!['/']);
}

/// Every operation of a plan works inside the working directory, never on the working
/// directory itself nor outside it: both ends of a rename, and the path of every other
/// operation, lie inside it.
pub proof fn lemma_plan_stays_inside(
    root: Seq<char>,
    original: Seq<EntityView>,
    modified: Seq<EntityView>,
    matches: Seq<Match>,
    p: int,
)
    requires
        relative_paths(original),
        relative_paths(modified),
        0 <= p < spec_plan(root, original, modified, matches).len(),
    ensures
        lies_inside(root, spec_plan(root, original, modified, matches)[p].source()),
        lies_inside(root, spec_plan(root, original, modified, matches)[p].target()),
{
    let plan = spec_plan(root, original, modified, matches);
    let c = creations(root, original, modified, matches, modified.len());
    let rs = renames(root, original, modified, matches, matches.len());
    let r = deepest_first(rs);
    let ds = deletions(root, original, matches, original.len());
    let d = deepest_first(ds);
    lemma_creations_members(root, original, modified, matches, modified.len());
    lemma_renames_members(root, original, modified, matches, matches.len());
    lemma_deletions_members(root, original, matches, original.len());
    lemma_deepest_first_members(rs);
    lemma_deepest_first_members(ds);
    if p < c.len() {
        assert(plan[p] == c[p]);
        assert(c.contains(c[p]));
        let j = choose|j: int|
            0 <= j < modified.len() && creation_at(root, original, modified, matches, j) == Some(
                c[p],
            );
        lemma_absolute_inside(root, modified[j].path);
    } else if p < c.len() + r.len() {
        let x = r[p - c.len()];
        assert(plan[p] == x);
        assert(r.contains(x));
        assert(rs.contains(x));
        let k = choose|k: int|
            0 <= k < matches.len() && moves(original, modified, matches[k]) && rename_of(
                root,
                original,
                modified,
                matches[k],
            ) == x;
        lemma_absolute_inside(root, original[matches[k].original as int].path);
        lemma_absolute_inside(root, modified[matches[k].modified as int].path);
    } else {
        let x = d[p - c.len() - r.len()];
        assert(plan[p] == x);
        assert(d.contains(x));
        assert(ds.contains(x));
        let i = choose|i: int|
            0 < i < original.len() && !original_matched(matches, i) && x == (OpView::Delete {
                path: spec_absolute(root, original[i].path),
            });
        lemma_absolute_inside(root, original[i].path);
    }
}

/// Two places under one working directory are the same only for the same relative path.
pub proof fn lemma_absolute_injective(root: Seq<char>, a: Seq<char>, b: Seq<char>)
    requires
        a.len() > 0,
        b.len() > 0,
        spec_absolute(root, a) == spec_absolute(root, b),
    ensures
        a == b,
{
    let pa = root + seq!['/'] + a;
    let pb = root + seq!['/'] + b;
    assert(pa.subrange(root.len() as int + 1, pa.len() as int) =~= a);
    assert(pb.subrange(root.len() as int + 1, pb.len() as int) =~= b);
}

/// The renames of a plan are all different where no two original entities share a path,
/// and they stand in the order of the matches that call for them.
pub proof fn lemma_renames_distinct(
    root: Seq<char>,
    original: Seq<EntityView>,
    modified: Seq<EntityView>,
    matches: Seq<Match>,
    n: nat,
)
    requires
        n <= matches.len(),
        is_correspondence(matches, original.len(), modified.len()),
        crate::entity::unique_paths(original),
        relative_paths(original),
    ensures
        renames(root, original, modified, matches, n).no_duplicates(),
        forall|l: int, k: int|
            0 <= l < k < n && moves(original, modified, matches[l]) && moves(
                original,
                modified,
                matches[k],
            ) ==> exists|i1: int, i2: int|
                0 <= i1 < i2 < renames(root, original, modified, matches, n).len()
                    && #[trigger] renames(root, original, modified, matches, n)[i1] == rename_of(
                    root,
                    original,
                    modified,
                    matches[l],
                ) && #[trigger] renames(root, original, modified, matches, n)[i2] == rename_of(
                    root,
                    original,
                    modified,
                    matches[k],
                ),
    decreases n,
{
    let now = renames(root, original, modified, matches, n);
    if n > 0 {
        let before = renames(root, original, modified, matches, (n - 1) as nat);
        lemma_renames_distinct(root, original, modified, matches, (n - 1) as nat);
        lemma_renames_members(root, original, modified, matches, (n - 1) as nat);
        let last = matches[n - 1];
        if moves(original, modified, last) {
            let x = rename_of(root, original, modified, last);
            assert forall|i: int| 0 <= i < before.len() implies before[i] != x by {
                assert(before.contains(before[i]));
                let k = choose|k: int|
                    0 <= k < n - 1 && moves(original, modified, matches[k]) && rename_of(
                        root,
                        original,
                        modified,
                        matches[k],
                    ) == before[i];
                assert(matches[k].original != last.original);
                if before[i] == x {
                    lemma_absolute_injective(
                        root,
                        original[matches[k].original as int].path,
                        original[last.original as int].path,
                    );
                }
            }
            assert forall|i: int, j: int| 0 <= i < j < now.len() implies now[i] != now[j] by {
                if j < before.len() {
                    assert(now[i] == before[i] && now[j] == before[j]);
                } else {
                    assert(now[i] == before[i]);
                }
            }
        }
        assert forall|l: int, k: int|
            0 <= l < k < n && moves(original, modified, matches[l]) && moves(
                original,
                modified,
                matches[k],
            ) implies exists|i1: int, i2: int|
            0 <= i1 < i2 < now.len() && #[trigger] now[i1] == rename_of(
                root,
                original,
                modified,
                matches[l],
            ) && #[trigger] now[i2] == rename_of(root, original, modified, matches[k]) by {
            if k == n - 1 {
                let y = rename_of(root, original, modified, matches[l]);
                assert(before.contains(y));
                let i1 = choose|i1: int| 0 <= i1 < before.len() && before[i1] == y;
                let i2 = before.len() as int;
                assert(now[i1] == y && now[i2] == rename_of(root, original, modified, matches[k]));
            } else {
                let (i1, i2) = choose|i1: int, i2: int|
                    0 <= i1 < i2 < before.len() && #[trigger] before[i1] == rename_of(
                        root,
                        original,
                        modified,
                        matches[l],
                    ) && #[trigger] before[i2] == rename_of(root, original, modified, matches[k]);
                assert(now[i1] == before[i1] && now[i2] == before[i2]);
            }
        }
    }
}

/// Whether the rename of the match at `l` stands before the rename of the match at `k` in
/// a plan: its source lies deeper, or as deep while its match comes first.
pub open spec fn renamed_before(
    root: Seq<char>,
    original: Seq<EntityView>,
    modified: Seq<EntityView>,
    matches: Seq<Match>,
    l: int,
    k: int,
) -> bool {
    let first = depth_key(rename_of(root, original, modified, matches[l]));
    let second = depth_key(rename_of(root, original, modified, matches[k]));
    first > second || (first == second && l < k)
}

/// Whether the directory that is to hold the modified entity of the match at `k` is there
/// when the plan reaches the rename of that match: it is in the original snapshot, or the
/// plan creates it, or it is the end of a rename that stands before.
pub open spec fn holder_in_place(
    root: Seq<char>,
    original: Seq<EntityView>,
    modified: Seq<EntityView>,
    matches: Seq<Match>,
    k: int,
) -> bool {
    let dir = spec_dir_of(modified[matches[k].modified as int].path);
    ||| exists|i: int| 0 <= i < original.len() && (#[trigger] original[i]).path == dir
    ||| exists|a: int|
        0 < a < modified.len() && (#[trigger] modified[a]).path == dir && creation_at(
            root,
            original,
            modified,
            matches,
            a,
        ) == Some(OpView::CreateDir { path: spec_absolute(root, dir) })
    ||| exists|l: int|
        0 <= l < matches.len() && moves(original, modified, #[trigger] matches[l])
            && modified[matches[l].modified as int].path == dir && renamed_before(
            root,
            original,
            modified,
            matches,
            l,
            k,
        )
}

/// Every rename of a plan ends in a directory that is there by then: the directory part
/// of its target is a place of the original snapshot, or the target of a creation of a
/// directory or of a rename that stands earlier in the plan.
///
/// This holds of a correspondence between snapshots with relative paths, the original
/// one without a path that occurs twice, where the directory that is to hold each moved
/// entity is in the original snapshot, is created by the plan, or is the end of a rename
/// that the plan orders before: one with a deeper source, or with a source as deep and an
/// earlier match.
#[verifier::rlimit(60)]
#[verifier::spinoff_prover]
pub proof fn lemma_rename_parent_in_place(
    root: Seq<char>,
    original: Seq<EntityView>,
    modified: Seq<EntityView>,
    matches: Seq<Match>,
    p: int,
)
    requires
        relative_paths(original),
        relative_paths(modified),
        crate::entity::unique_paths(original),
        is_correspondence(matches, original.len(), modified.len()),
        0 <= p < spec_plan(root, original, modified, matches).len(),
        spec_plan(root, original, modified, matches)[p] is Rename,
        forall|k: int|
            0 <= k < matches.len() && moves(original, modified, #[trigger] matches[k])
                ==> holder_in_place(root, original, modified, matches, k),
    ensures
        ({
            let plan = spec_plan(root, original, modified, matches);
            let parent = spec_dir_of(plan[p]->to);
            ||| exists|i: int|
                0 <= i < original.len() && spec_absolute(root, (#[trigger] original[i]).path)
                    == parent
            ||| exists|q: int|
                0 <= q < p && ((#[trigger] plan[q]) is CreateDir || plan[q] is Rename)
                    && plan[q].target() == parent
        }),
{
    let plan = spec_plan(root, original, modified, matches);
    let c = creations(root, original, modified, matches, modified.len());
    let rs = renames(root, original, modified, matches, matches.len());
    let r = deepest_first(rs);
    let ds = deletions(root, original, matches, original.len());
    let d = deepest_first(ds);
    lemma_creations_members(root, original, modified, matches, modified.len());
    lemma_renames_members(root, original, modified, matches, matches.len());
    lemma_deletions_members(root, original, matches, original.len());
    lemma_deepest_first_members(rs);
    lemma_deepest_first_members(ds);
    lemma_deepest_first_sorted(rs);
    lemma_renames_distinct(root, original, modified, matches, matches.len());
    lemma_deepest_first_permutes(rs);
    lemma_max_depth(rs, rs.len());
    if p < c.len() {
        assert(plan[p] == c[p]);
        assert(c.contains(c[p]));
        assert(false);
    }
    if p >= c.len() + r.len() {
        assert(plan[p] == d[p - c.len() - r.len()]);
        assert(d.contains(d[p - c.len() - r.len()]));
        assert(false);
    }
    let pr = p - c.len();
    let x = r[pr];
    assert(plan[p] == x);
    assert(r.contains(x));
    assert(rs.contains(x));
    let k = choose|k: int|
        0 <= k < matches.len() && moves(original, modified, matches[k]) && rename_of(
            root,
            original,
            modified,
            matches[k],
        ) == x;
    let rel = modified[matches[k].modified as int].path;
    let dir = spec_dir_of(rel);
    lemma_dir_of_absolute(root, rel);
    let parent = spec_dir_of(plan[p]->to);
    assert(parent == spec_absolute(root, dir));
    assert(holder_in_place(root, original, modified, matches, k));
    if exists|i: int| 0 <= i < original.len() && (#[trigger] original[i]).path == dir {
        let i = choose|i: int| 0 <= i < original.len() && (#[trigger] original[i]).path == dir;
        assert(spec_absolute(root, original[i].path) == parent);
    } else if exists|a: int|
        0 < a < modified.len() && (#[trigger] modified[a]).path == dir && creation_at(
            root,
            original,
            modified,
            matches,
            a,
        ) == Some(OpView::CreateDir { path: spec_absolute(root, dir) }) {
        let made = OpView::CreateDir { path: spec_absolute(root, dir) };
        assert(c.contains(made));
        let q = choose|q: int| 0 <= q < c.len() && c[q] == made;
        assert(plan[q] == made);
        assert(plan[q] is CreateDir && plan[q].target() == parent);
    } else {
        let l = choose|l: int|
            0 <= l < matches.len() && moves(original, modified, #[trigger] matches[l])
                && modified[matches[l].modified as int].path == dir && renamed_before(
                root,
                original,
                modified,
                matches,
                l,
                k,
            );
        let y = rename_of(root, original, modified, matches[l]);
        assert(rs.contains(y));
        assert(r.contains(y));
        if depth_key(y) > depth_key(x) {
            let qr = choose|qr: int| 0 <= qr < r.len() && r[qr] == y;
            if qr > pr {
                assert(depth_key(r[pr]) >= depth_key(r[qr]));
            }
            assert(qr < pr);
            assert(plan[c.len() + qr] == y);
            assert(plan[c.len() + qr] is Rename && plan[c.len() + qr].target() == parent);
        } else {
            let (i1, i2) = choose|i1: int, i2: int|
                0 <= i1 < i2 < rs.len() && #[trigger] rs[i1] == y && #[trigger] rs[i2] == x;
            lemma_from_depth_down_keeps_order(rs, max_depth(rs, rs.len()), i1, i2);
            let (lo, hi) = choose|lo: int, hi: int|
                0 <= lo < hi < r.len() && #[trigger] r[lo] == rs[i1] && #[trigger] r[hi] == rs[i2];
            assert(hi == pr);
            assert(plan[c.len() + lo] == y);
            assert(plan[c.len() + lo] is Rename && plan[c.len() + lo].target() == parent);
        }
    }
}

/// A path lies above another under the working directory exactly when it does so as a
/// relative path.
pub proof fn lemma_ancestor_absolute(root: Seq<char>, a: Seq<char>, b: Seq<char>)
    requires
        a.len() > 0,
        b.len() > 0,
    ensures
        crate::plan::is_ancestor_path(spec_absolute(root, a), spec_absolute(root, b))
            == crate::plan::is_ancestor_path(a, b),
{
    let pa = root + seq!['/'] + a;
    let pb = root + seq!['/'] + b;
    let shift = root.len() as int + 1;
    if crate::plan::is_ancestor_path(a, b) {
        assert(pb.subrange(0, pa.len() as int) =~= pa) by {
            assert forall|i: int| 0 <= i < pa.len() implies pb[i] == pa[i] by {
                if i >= shift {
                    assert(b.subrange(0, a.len() as int)[i - shift] == a[i - shift]);
                }
            }
        }
        assert(pb[pa.len() as int] == b[a.len() as int]);
    }
    if crate::plan::is_ancestor_path(pa, pb) {
        assert(b.subrange(0, a.len() as int) =~= a) by {
            assert forall|i: int| 0 <= i < a.len() implies b[i] == a[i] by {
                assert(pb.subrange(0, pa.len() as int)[i + shift] == pa[i + shift]);
            }
        }
        assert(pb[pa.len() as int] == b[a.len() as int]);
    }
}

/// No directory is created below a path that the plan brings into being: the target of a
/// creation of a directory never lies below the target of another creation of a
/// directory or of a rename.
pub proof fn lemma_created_directories_apart(
    root: Seq<char>,
    original: Seq<EntityView>,
    modified: Seq<EntityView>,
    matches: Seq<Match>,
    p: int,
    q: int,
)
    requires
        relative_paths(modified),
        0 <= p < spec_plan(root, original, modified, matches).len(),
        0 <= q < spec_plan(root, original, modified, matches).len(),
        spec_plan(root, original, modified, matches)[p] is CreateDir,
        spec_plan(root, original, modified, matches)[q] is CreateDir || spec_plan(
            root,
            original,
            modified,
            matches,
        )[q] is Rename,
    ensures
        !crate::plan::is_ancestor_path(
            spec_plan(root, original, modified, matches)[q].target(),
            spec_plan(root, original, modified, matches)[p].target(),
        ),
{
    let plan = spec_plan(root, original, modified, matches);
    let c = creations(root, original, modified, matches, modified.len());
    let rs = renames(root, original, modified, matches, matches.len());
    let r = deepest_first(rs);
    let ds = deletions(root, original, matches, original.len());
    let d = deepest_first(ds);
    lemma_creations_members(root, original, modified, matches, modified.len());
    lemma_renames_members(root, original, modified, matches, matches.len());
    lemma_deletions_members(root, original, matches, original.len());
    lemma_deepest_first_members(rs);
    lemma_deepest_first_members(ds);
    if p >= c.len() {
        if p < c.len() + r.len() {
            assert(plan[p] == r[p - c.len()]);
            assert(r.contains(plan[p]));
        } else {
            assert(plan[p] == d[p - c.len() - r.len()]);
            assert(d.contains(plan[p]));
        }
        assert(false);
    }
    assert(plan[p] == c[p]);
    assert(c.contains(c[p]));
    let j = choose|j: int|
        0 <= j < modified.len() && creation_at(root, original, modified, matches, j) == Some(c[p]);
    assert(!crate::plan::covered(original, modified, matches, j));
    if q < c.len() {
        assert(plan[q] == c[q]);
        assert(c.contains(c[q]));
        let a = choose|a: int|
            0 <= a < modified.len() && creation_at(root, original, modified, matches, a) == Some(
                c[q],
            );
        lemma_ancestor_absolute(root, modified[a].path, modified[j].path);
        assert(crate::plan::comes_into_being(original, modified, matches, a));
    } else if q < c.len() + r.len() {
        let x = r[q - c.len()];
        assert(plan[q] == x);
        assert(r.contains(x));
        assert(rs.contains(x));
        let k = choose|k: int|
            0 <= k < matches.len() && moves(original, modified, matches[k]) && rename_of(
                root,
                original,
                modified,
                matches[k],
            ) == x;
        let a = matches[k].modified as int;
        lemma_ancestor_absolute(root, modified[a].path, modified[j].path);
        assert(crate::plan::is_rename_target(original, modified, matches, a));
        assert(crate::plan::comes_into_being(original, modified, matches, a));
    } else {
        assert(plan[q] == d[q - c.len() - r.len()]);
        assert(d.contains(plan[q]));
        assert(false);
    }
}

/// Whether `path` is the place of an entity below the root of `snapshot`.
pub open spec fn is_place_in(root: Seq<char>, snapshot: Seq<EntityView>, path: Seq<char>) -> bool {
    exists|i: int| 0 < i < snapshot.len() && path == spec_absolute(root, (#[trigger] snapshot[i]).path)
}

/// Every operation of a plan is derived from the two snapshots: what it creates is the
/// place of a modified entity, what it deletes is the place of an original entity, and
/// what it renames goes from the place of an original entity to the place of a modified
/// one.
pub proof fn lemma_plan_is_derived(
    root: Seq<char>,
    original: Seq<EntityView>,
    modified: Seq<EntityView>,
    matches: Seq<Match>,
    p: int,
)
    requires
        0 <= p < spec_plan(root, original, modified, matches).len(),
    ensures
        match spec_plan(root, original, modified, matches)[p] {
            OpView::CreateDir { path } => is_place_in(root, modified, path),
            OpView::CreateFile { path } => is_place_in(root, modified, path),
            OpView::Rename { from, to } => is_place_in(root, original, from) && is_place_in(
                root,
                modified,
                to,
            ),
            OpView::Delete { path } => is_place_in(root, original, path),
        },
{
    let plan = spec_plan(root, original, modified, matches);
    let c = creations(root, original, modified, matches, modified.len());
    let rs = renames(root, original, modified, matches, matches.len());
    let r = deepest_first(rs);
    let ds = deletions(root, original, matches, original.len());
    let d = deepest_first(ds);
    lemma_creations_members(root, original, modified, matches, modified.len());
    lemma_renames_members(root, original, modified, matches, matches.len());
    lemma_deletions_members(root, original, matches, original.len());
    lemma_deepest_first_members(rs);
    lemma_deepest_first_members(ds);
    if p < c.len() {
        assert(plan[p] == c[p]);
        assert(c.contains(c[p]));
        let j = choose|j: int|
            0 <= j < modified.len() && creation_at(root, original, modified, matches, j) == Some(
                c[p],
            );
        assert(c[p].target() == spec_absolute(root, modified[j].path));
    } else if p < c.len() + r.len() {
        let x = r[p - c.len()];
        assert(plan[p] == x);
        assert(r.contains(x));
        assert(rs.contains(x));
        let k = choose|k: int|
            0 <= k < matches.len() && moves(original, modified, matches[k]) && rename_of(
                root,
                original,
                modified,
                matches[k],
            ) == x;
        assert(x->from == spec_absolute(root, original[matches[k].original as int].path));
        assert(x->to == spec_absolute(root, modified[matches[k].modified as int].path));
    } else {
        let x = d[p - c.len() - r.len()];
        assert(plan[p] == x);
        assert(d.contains(x));
        assert(ds.contains(x));
        let i = choose|i: int|
            0 < i < original.len() && !original_matched(matches, i) && x == (OpView::Delete {
                path: spec_absolute(root, original[i].path),
            });
        assert(x->Delete_path == spec_absolute(root, original[i].path));
    }
}

/// No operation that is handed out starts or ends at or below a place that belongs to
/// the keeping of backups, and every operation that is handed out is one of the plan.
pub proof fn lemma_backups_untouched(
    root: Seq<char>,
    original: Seq<EntityView>,
    modified: Seq<EntityView>,
    matches: Seq<Match>,
    p: int,
)
    requires
        0 <= p < crate::plan::spec_safe_plan(root, original, modified, matches).len(),
    ensures
        !crate::plan::touches_reserved(
            root,
            crate::plan::spec_safe_plan(root, original, modified, matches)[p],
        ),
        spec_plan(root, original, modified, matches).contains(
            crate::plan::spec_safe_plan(root, original, modified, matches)[p],
        ),
{
    let plan = spec_plan(root, original, modified, matches);
    crate::plan::lemma_shielded(root, plan, plan.len());
}

/// Whether the modified entity at `a` comes with a directory above it: it is paired as
/// inherited, or it is a new directory below a path that the plan brings into being.
pub open spec fn comes_with_another(
    original: Seq<EntityView>,
    modified: Seq<EntityView>,
    matches: Seq<Match>,
    a: int,
) -> bool {
    ||| crate::plan::covered(original, modified, matches, a)
    ||| exists|k: int|
        0 <= k < matches.len() && (#[trigger] matches[k]).modified == a && matches[k].inherited
}

/// Whether every match pairs an entity of the original snapshot, and an entity below the
/// root only with an entity below the root.
pub open spec fn pairs_below_root(matches: Seq<Match>, n_original: nat) -> bool {
    forall|k: int|
        0 <= k < matches.len() ==> (#[trigger] matches[k]).original < n_original && (
        matches[k].modified > 0 ==> matches[k].original > 0)
}

/// What is known of the directory `parent` that is to hold the target of the rename at
/// `p` of the plan.
pub open spec fn parent_accounted(
    root: Seq<char>,
    original: Seq<EntityView>,
    modified: Seq<EntityView>,
    matches: Seq<Match>,
    p: int,
    parent: Seq<char>,
) -> bool {
    let plan = spec_plan(root, original, modified, matches);
    ||| exists|i: int|
        0 <= i < original.len() && spec_absolute(root, (#[trigger] original[i]).path) == parent
    ||| exists|q: int| 0 <= q < p && (#[trigger] plan[q]) is CreateDir && plan[q].target() == parent
    ||| exists|q: int|
        0 <= q < plan.len() && (#[trigger] plan[q]) is Rename && plan[q].target() == parent
    ||| exists|a: int|
        0 < a < modified.len() && spec_absolute(root, (#[trigger] modified[a]).path) == parent
            && comes_with_another(original, modified, matches, a)
}

/// The directory that is to hold the target of a rename is accounted for, whatever the
/// two snapshots are: it is a place of the original snapshot, or a directory that the
/// plan creates before any rename, or the target of a rename of the plan, or it comes
/// with a directory above it that the plan brings into being.
pub proof fn lemma_rename_parent_accounted(
    root: Seq<char>,
    original: Seq<EntityView>,
    modified: Seq<EntityView>,
    matches: Seq<Match>,
    p: int,
)
    requires
        original.len() > 0,
        original[0].path.len() == 0,
        crate::laws::snapshots::closed_snapshot(modified),
        pairs_below_root(matches, original.len()),
        0 <= p < spec_plan(root, original, modified, matches).len(),
        spec_plan(root, original, modified, matches)[p] is Rename,
    ensures
        parent_accounted(
            root,
            original,
            modified,
            matches,
            p,
            spec_dir_of(spec_plan(root, original, modified, matches)[p]->to),
        ),
{
    let plan = spec_plan(root, original, modified, matches);
    let c = creations(root, original, modified, matches, modified.len());
    let rs = renames(root, original, modified, matches, matches.len());
    let r = deepest_first(rs);
    let ds = deletions(root, original, matches, original.len());
    let d = deepest_first(ds);
    lemma_creations_members(root, original, modified, matches, modified.len());
    lemma_renames_members(root, original, modified, matches, matches.len());
    lemma_deletions_members(root, original, matches, original.len());
    lemma_deepest_first_members(rs);
    lemma_deepest_first_members(ds);
    if p < c.len() {
        assert(plan[p] == c[p]);
        assert(c.contains(c[p]));
        assert(false);
    }
    if p >= c.len() + r.len() {
        assert(plan[p] == d[p - c.len() - r.len()]);
        assert(d.contains(d[p - c.len() - r.len()]));
        assert(false);
    }
    let x = r[p - c.len()];
    assert(plan[p] == x);
    assert(r.contains(x));
    assert(rs.contains(x));
    let k = choose|k: int|
        0 <= k < matches.len() && moves(original, modified, matches[k]) && rename_of(
            root,
            original,
            modified,
            matches[k],
        ) == x;
    let j = matches[k].modified as int;
    let rel = modified[j].path;
    let dir = spec_dir_of(rel);
    lemma_dir_of_absolute(root, rel);
    let parent = spec_dir_of(plan[p]->to);
    assert(parent == spec_absolute(root, dir));
    let a = choose|a: int|
        0 <= a < modified.len() && (#[trigger] modified[a]).is_dir && modified[a].path == dir;
    if a == 0 {
        assert(spec_absolute(root, original[0].path) == parent);
    } else if !crate::resolve::modified_matched(matches, a) {
        if crate::plan::covered(original, modified, matches, a) {
            assert(comes_with_another(original, modified, matches, a));
        } else {
            let made = OpView::CreateDir { path: spec_absolute(root, dir) };
            assert(creation_at(root, original, modified, matches, a) == Some(made));
            assert(c.contains(made));
            let q = choose|q: int| 0 <= q < c.len() && c[q] == made;
            assert(plan[q] == made);
            assert(plan[q] is CreateDir && plan[q].target() == parent);
        }
    } else {
        let l = choose|l: int| 0 <= l < matches.len() && (#[trigger] matches[l]).modified == a;
        if moves(original, modified, matches[l]) {
            let y = rename_of(root, original, modified, matches[l]);
            assert(rs.contains(y));
            assert(r.contains(y));
            let qr = choose|qr: int| 0 <= qr < r.len() && r[qr] == y;
            assert(plan[c.len() + qr] == y);
            assert(plan[c.len() + qr] is Rename && plan[c.len() + qr].target() == parent);
        } else if matches[l].inherited {
            assert(comes_with_another(original, modified, matches, a));
        } else {
            let i = matches[l].original as int;
            assert(original[i].path == modified[a].path);
            assert(spec_absolute(root, original[i].path) == parent);
        }
    }
}

} // verus!
