//! Laws of the plans for the simplest changes: none at all, one entity renamed, one
//! entity removed.

use vstd::prelude::*;
use crate::entity::{unique_ids, EntityView};
use crate::fuzzy::{directory_phase, exact_phase, file_phase, free_at, structural_matches};
use crate::laws::order::{lemma_deepest_first_empty, lemma_deepest_first_single};
use crate::operation::OpView;
use crate::plan::{
    creation_at,
    creations,
    deletions,
    moves,
    rename_of,
    renames,
    spec_absolute,
    spec_plan,
};
use crate::resolve::{
    identity_match,
    identity_matches,
    lemma_position_of,
    modified_matched,
    original_matched,
    position_of,
    Match,
};

verus! {

/// The pairing of each of the first `k` positions with itself, and of each later position
/// `j` with `j + 1`: the correspondence between a snapshot and the same snapshot without
/// its entity at `k`.
pub open spec fn skip_pairing(k: nat, n: nat) -> Seq<Match> {
    Seq::new(
        n,
        |j: int|
            Match {
                original: (if j < k {
                    j
                } else {
                    j + 1
                }) as usize,
                modified: j as usize,
                inherited: false,
            },
    )
}

/// The position in the original snapshot that the modified position `j` goes back to
/// when the original entity at `k` is not in the modified snapshot.
pub open spec fn origin_of(k: nat, j: int) -> int {
    if j < k {
        j
    } else {
        j + 1
    }
}

/// Whether the modified snapshot holds the entities of the original one, but for the one
/// at `k`, in the same order, each with its identity and its kind.
pub open spec fn same_without(original: Seq<EntityView>, modified: Seq<EntityView>, k: nat) -> bool {
    forall|j: int|
        0 <= j < modified.len() ==> {
            &&& origin_of(k, j) < original.len()
            &&& (#[trigger] modified[j]).id == original[origin_of(k, j)].id
            &&& modified[j].is_dir == original[origin_of(k, j)].is_dir
        }
}

/// Where the modified snapshot holds the entities of the original one but for the one at
/// `k`, whatever their paths, matching by identity pairs every modified entity with the
/// original entity it came from, and marks the pair as inherited exactly where the entity
/// comes along with the directory that holds it.
pub proof fn lemma_identity_places(
    original: Seq<EntityView>,
    modified: Seq<EntityView>,
    k: nat,
    n: nat,
)
    requires
        unique_ids(original),
        original.len() <= usize::MAX,
        1 <= k,
        n <= modified.len(),
        same_without(original, modified, k),
    ensures
        identity_matches(original, modified, n).len() == n,
        forall|j: int|
            0 <= j < n ==> {
                let pair = #[trigger] identity_matches(original, modified, n)[j];
                &&& pair.original == origin_of(k, j)
                &&& pair.modified == j
                &&& pair.inherited == (j > 0 && crate::resolve::comes_along(
                    original,
                    modified,
                    identity_matches(original, modified, j as nat),
                    origin_of(k, j),
                    j,
                ))
            },
    decreases n,
{
    if n > 0 {
        let j = (n - 1) as nat;
        lemma_identity_places(original, modified, k, j);
        let before = identity_matches(original, modified, j);
        let i: nat = origin_of(k, j as int) as nat;
        if j > 0 {
            lemma_position_of(original, modified[j as int].id, 1);
            assert(original[i as int].id == modified[j as int].id);
            assert(position_of(original, modified[j as int].id, 1) == Some(i));
        }
        assert(identity_match(original, modified, before, j) is Some);
        let now = identity_matches(original, modified, n);
        assert forall|l: int| 0 <= l < n implies {
            let pair = #[trigger] now[l];
            &&& pair.original == origin_of(k, l)
            &&& pair.modified == l
            &&& pair.inherited == (l > 0 && crate::resolve::comes_along(
                original,
                modified,
                identity_matches(original, modified, l as nat),
                origin_of(k, l),
                l,
            ))
        } by {
            if l < j {
                assert(now[l] == before[l]);
            }
        }
    }
}

/// Where the modified snapshot is the original one without its entity at `k`, every
/// entity at its old path, matching by identity pairs every modified entity with the
/// original entity it came from, and no pair is inherited.
pub proof fn lemma_identity_matches_skip(
    original: Seq<EntityView>,
    modified: Seq<EntityView>,
    k: nat,
    n: nat,
)
    requires
        unique_ids(original),
        original.len() <= usize::MAX,
        1 <= k,
        n <= modified.len(),
        same_without(original, modified, k),
        forall|j: int|
            0 <= j < modified.len() ==> (#[trigger] modified[j]).path == original[origin_of(
                k,
                j,
            )].path,
    ensures
        identity_matches(original, modified, n) == skip_pairing(k, n),
{
    lemma_identity_places(original, modified, k, n);
    assert(identity_matches(original, modified, n) =~= skip_pairing(k, n));
}

/// With every modified entity matched, nothing is created.
pub proof fn lemma_no_creations(
    root: Seq<char>,
    original: Seq<EntityView>,
    modified: Seq<EntityView>,
    matches: Seq<Match>,
    n: nat,
)
    requires
        n <= modified.len(),
        forall|j: int| 0 < j < modified.len() ==> modified_matched(matches, j),
    ensures
        creations(root, original, modified, matches, n) == Seq::<OpView>::empty(),
    decreases n,
{
    if n > 0 {
        lemma_no_creations(root, original, modified, matches, (n - 1) as nat);
        assert(creation_at(root, original, modified, matches, n - 1) is None);
    }
}

/// With every original entity matched, nothing is deleted.
pub proof fn lemma_no_deletions(
    root: Seq<char>,
    original: Seq<EntityView>,
    matches: Seq<Match>,
    n: nat,
)
    requires
        n <= original.len(),
        forall|i: int| 0 < i < original.len() ==> original_matched(matches, i),
    ensures
        deletions(root, original, matches, n) == Seq::<OpView>::empty(),
    decreases n,
{
    if n > 0 {
        lemma_no_deletions(root, original, matches, (n - 1) as nat);
    }
}

/// Where no match moves its entity, nothing is renamed.
pub proof fn lemma_no_renames(
    root: Seq<char>,
    original: Seq<EntityView>,
    modified: Seq<EntityView>,
    matches: Seq<Match>,
    n: nat,
)
    requires
        n <= matches.len(),
        forall|k: int| 0 <= k < matches.len() ==> !moves(original, modified, #[trigger] matches[k]),
    ensures
        renames(root, original, modified, matches, n) == Seq::<OpView>::empty(),
    decreases n,
{
    if n > 0 {
        lemma_no_renames(root, original, modified, matches, (n - 1) as nat);
    }
}

/// Where the match at `k` is the only one that moves its entity, the renames up to `n`
/// are that one rename once `n` has passed `k`, and none before.
pub proof fn lemma_one_rename(
    root: Seq<char>,
    original: Seq<EntityView>,
    modified: Seq<EntityView>,
    matches: Seq<Match>,
    k: int,
    n: nat,
)
    requires
        n <= matches.len(),
        0 <= k < matches.len(),
        forall|l: int|
            0 <= l < matches.len() ==> (moves(original, modified, #[trigger] matches[l]) <==> l
                == k),
    ensures
        renames(root, original, modified, matches, n) == if n > k {
            seq![rename_of(root, original, modified, matches[k])]
        } else {
            Seq::<OpView>::empty()
        },
    decreases n,
{
    if n > 0 {
        lemma_one_rename(root, original, modified, matches, k, (n - 1) as nat);
        if n - 1 == k {
            assert(Seq::<OpView>::empty().push(rename_of(root, original, modified, matches[k]))
                =~= seq![rename_of(root, original, modified, matches[k])]);
        }
    }
}

/// Where the original entity at `k` is the only unmatched one, the deletions up to `n`
/// are that one deletion once `n` has passed `k`, and none before.
pub proof fn lemma_one_deletion(
    root: Seq<char>,
    original: Seq<EntityView>,
    matches: Seq<Match>,
    k: int,
    n: nat,
)
    requires
        n <= original.len(),
        0 < k < original.len(),
        forall|i: int| 0 < i < original.len() ==> (original_matched(matches, i) <==> i != k),
    ensures
        deletions(root, original, matches, n) == if n > k {
            seq![OpView::Delete { path: spec_absolute(root, original[k].path) }]
        } else {
            Seq::<OpView>::empty()
        },
    decreases n,
{
    if n > 0 {
        lemma_one_deletion(root, original, matches, k, (n - 1) as nat);
        if n - 1 == k {
            assert(Seq::<OpView>::empty().push(
                OpView::Delete { path: spec_absolute(root, original[k].path) },
            ) =~= seq![OpView::Delete { path: spec_absolute(root, original[k].path) }]);
        }
    }
}

/// Reconciling a snapshot with itself plans nothing.
pub proof fn lemma_unchanged_plans_nothing(root: Seq<char>, snapshot: Seq<EntityView>)
    requires
        unique_ids(snapshot),
        snapshot.len() <= usize::MAX,
    ensures
        spec_plan(
            root,
            snapshot,
            snapshot,
            identity_matches(snapshot, snapshot, snapshot.len()),
        ) == Seq::<OpView>::empty(),
{
    let n = snapshot.len();
    let matches = identity_matches(snapshot, snapshot, n);
    if n == 0 {
        assert(matches == Seq::<Match>::empty());
    } else {
        lemma_identity_matches_skip(snapshot, snapshot, n, n);
        assert forall|j: int| 0 < j < n implies modified_matched(matches, j) by {
            assert(matches[j].modified == j);
        }
        assert forall|i: int| 0 < i < n implies original_matched(matches, i) by {
            assert(matches[i].original == i);
        }
    }
    lemma_no_creations(root, snapshot, snapshot, matches, n);
    lemma_no_deletions(root, snapshot, matches, n);
    lemma_no_renames(root, snapshot, snapshot, matches, matches.len());
    lemma_deepest_first_empty();
}

/// Whether the modified snapshot is the original one with the entity at `k` renamed: the
/// same entities in the same order, each with its identity and kind, each in the
/// directory it was in, and each under its old name but the one at `k`.
pub open spec fn renamed_at(original: Seq<EntityView>, modified: Seq<EntityView>, k: int) -> bool {
    &&& original.len() == modified.len()
    &&& 0 < k < original.len()
    &&& forall|j: int|
        0 <= j < original.len() ==> (#[trigger] modified[j]).id == original[j].id
            && modified[j].is_dir == original[j].is_dir
    &&& forall|j: int|
        0 < j < original.len() ==> (crate::text::spec_base_name((#[trigger] modified[j]).path)
            == crate::text::spec_base_name(original[j].path) <==> j != k)
    &&& forall|j: int| 0 < j < original.len() ==> #[trigger] held_alike(original, modified, j)
}

/// Whether the entities at `j` of two snapshots lie in directories that stand at the same
/// earlier position in both.
pub open spec fn held_alike(original: Seq<EntityView>, modified: Seq<EntityView>, j: int) -> bool {
    exists|p: int|
        0 <= p < j && (#[trigger] original[p]).path == crate::text::spec_dir_of(original[j].path)
            && modified[p].path == crate::text::spec_dir_of(modified[j].path)
}

/// Where one entity below the root has a new name and everything else is as it was, with
/// every identity kept, the plan is the one rename of that entity, from its old place to
/// its new one. What lies below a renamed directory comes along with it.
pub proof fn lemma_single_rename(
    root: Seq<char>,
    original: Seq<EntityView>,
    modified: Seq<EntityView>,
    k: int,
)
    requires
        unique_ids(original),
        original.len() <= usize::MAX,
        renamed_at(original, modified, k),
    ensures
        spec_plan(root, original, modified, identity_matches(original, modified, modified.len()))
            == seq![
            OpView::Rename {
                from: spec_absolute(root, original[k].path),
                to: spec_absolute(root, modified[k].path),
            },
        ],
{
    let n = original.len();
    let matches = identity_matches(original, modified, n);
    lemma_identity_places(original, modified, n, n);
    assert forall|j: int| 0 < j < n implies modified_matched(matches, j) by {
        assert(matches[j].modified == j);
    }
    assert forall|i: int| 0 < i < n implies original_matched(matches, i) by {
        assert(matches[i].original == i);
    }
    assert forall|l: int| 0 <= l < matches.len() implies (moves(
        original,
        modified,
        #[trigger] matches[l],
    ) <==> l == k) by {
        if l > 0 {
            let before = identity_matches(original, modified, l as nat);
            lemma_identity_places(original, modified, n, l as nat);
            if l != k && original[l].path != modified[l].path {
                assert(held_alike(original, modified, l));
                let p = choose|p: int|
                    0 <= p < l && (#[trigger] original[p]).path == crate::text::spec_dir_of(
                        original[l].path,
                    ) && modified[p].path == crate::text::spec_dir_of(modified[l].path);
                assert(before[p].original == p && before[p].modified == p);
                assert(crate::resolve::parents_paired(original, modified, before, l, l));
                assert(matches[l].inherited);
            }
        }
    }
    lemma_no_creations(root, original, modified, matches, n);
    lemma_no_deletions(root, original, matches, n);
    lemma_one_rename(root, original, modified, matches, k, n);
    lemma_deepest_first_single(rename_of(root, original, modified, matches[k]));
    lemma_deepest_first_empty();
    assert(spec_plan(root, original, modified, matches) =~= seq![
        rename_of(root, original, modified, matches[k]),
    ]);
}

/// Where one entity below the root is gone and everything else is as it was, with every
/// identity kept, the plan is the one deletion of that entity.
pub proof fn lemma_single_removal(root: Seq<char>, original: Seq<EntityView>, k: int)
    requires
        unique_ids(original),
        original.len() <= usize::MAX,
        0 < k < original.len(),
    ensures
        spec_plan(
            root,
            original,
            original.remove(k),
            identity_matches(original, original.remove(k), original.remove(k).len()),
        ) == seq![OpView::Delete { path: spec_absolute(root, original[k].path) }],
{
    let modified = original.remove(k);
    let n = modified.len();
    let matches = identity_matches(original, modified, n);
    lemma_identity_matches_skip(original, modified, k as nat, n);
    assert forall|j: int| 0 < j < n implies modified_matched(matches, j) by {
        assert(matches[j].modified == j);
    }
    assert forall|i: int| 0 < i < original.len() implies (original_matched(matches, i) <==> i
        != k) by {
        if i < k {
            assert(matches[i].original == i);
        } else if i > k {
            assert(matches[i - 1].original == i);
        }
    }
    assert forall|l: int| 0 <= l < matches.len() implies !moves(
        original,
        modified,
        #[trigger] matches[l],
    ) by {}
    lemma_no_creations(root, original, modified, matches, n);
    lemma_no_renames(root, original, modified, matches, matches.len());
    lemma_one_deletion(root, original, matches, k, original.len());
    lemma_deepest_first_single(OpView::Delete { path: spec_absolute(root, original[k].path) });
    lemma_deepest_first_empty();
    assert(spec_plan(root, original, modified, matches) =~= seq![
        OpView::Delete { path: spec_absolute(root, original[k].path) },
    ]);
}

/// Where nothing between `from` and `j` has the path and the kind and is free, and the
/// entity at `j` has and is, `free_at` finds `j`.
pub proof fn lemma_free_at_is(
    snapshot: Seq<EntityView>,
    matches: Seq<Match>,
    original_side: bool,
    path: Seq<char>,
    is_dir: bool,
    from: nat,
    j: nat,
)
    requires
        from <= j < snapshot.len(),
        snapshot[j as int].path == path,
        snapshot[j as int].is_dir == is_dir,
        !crate::fuzzy::is_taken(matches, original_side, j as int),
        forall|i: int| from <= i < j ==> (#[trigger] snapshot[i]).path != path,
    ensures
        free_at(snapshot, matches, original_side, path, is_dir, from) == Some(j),
    decreases j - from,
{
    if from < j {
        lemma_free_at_is(snapshot, matches, original_side, path, is_dir, from + 1, j);
    }
}

/// Between a snapshot and itself, the pairs that kept their place are all the entities,
/// each with itself.
pub proof fn lemma_exact_phase_same(snapshot: Seq<EntityView>, n: nat)
    requires
        crate::entity::unique_paths(snapshot),
        snapshot.len() <= usize::MAX,
        n <= snapshot.len(),
    ensures
        exact_phase(snapshot, snapshot, n) == skip_pairing(snapshot.len(), n),
    decreases n,
{
    if n > 0 {
        let j = (n - 1) as nat;
        lemma_exact_phase_same(snapshot, j);
        let before = exact_phase(snapshot, snapshot, j);
        if j > 0 {
            assert(!original_matched(before, j as int));
            lemma_free_at_is(
                snapshot,
                before,
                true,
                snapshot[j as int].path,
                snapshot[j as int].is_dir,
                1,
                j,
            );
        }
        assert(exact_phase(snapshot, snapshot, n) =~= skip_pairing(snapshot.len(), n));
    } else {
        assert(exact_phase(snapshot, snapshot, n) =~= skip_pairing(snapshot.len(), n));
    }
}

/// Where every original entity below the root has a partner, the pairing of directories
/// and the pairing of files add nothing.
pub proof fn lemma_phases_idle(
    original: Seq<EntityView>,
    modified: Seq<EntityView>,
    start: Seq<Match>,
    n: nat,
)
    requires
        forall|i: int| 0 < i < original.len() ==> original_matched(start, i),
    ensures
        directory_phase(original, modified, start, n) == start,
        file_phase(original, modified, start, n) == start,
    decreases n,
{
    if n > 0 {
        lemma_phases_idle(original, modified, start, (n - 1) as nat);
    }
}

/// Between a snapshot and itself, pairing by structure pairs every entity with itself.
pub proof fn lemma_structural_same(snapshot: Seq<EntityView>)
    requires
        crate::entity::unique_paths(snapshot),
        snapshot.len() <= usize::MAX,
    ensures
        structural_matches(snapshot, snapshot) == skip_pairing(snapshot.len(), snapshot.len()),
{
    let n = snapshot.len();
    lemma_exact_phase_same(snapshot, n);
    let exact = exact_phase(snapshot, snapshot, n);
    assert forall|i: int| 0 < i < n implies original_matched(exact, i) by {
        assert(exact[i].original == i);
    }
    lemma_phases_idle(snapshot, snapshot, exact, n);
}

/// Reconciling a snapshot with itself plans nothing, whichever way the two are paired.
pub proof fn lemma_unchanged_plans_nothing_either_way(root: Seq<char>, snapshot: Seq<EntityView>)
    requires
        crate::entity::unique_paths(snapshot),
        crate::reconcile::by_identity(snapshot, snapshot) ==> unique_ids(snapshot),
        snapshot.len() <= usize::MAX,
    ensures
        spec_plan(
            root,
            snapshot,
            snapshot,
            crate::reconcile::spec_correspondence(snapshot, snapshot),
        ) == Seq::<OpView>::empty(),
{
    if crate::reconcile::by_identity(snapshot, snapshot) {
        lemma_unchanged_plans_nothing(root, snapshot);
    } else {
        let n = snapshot.len();
        let matches = structural_matches(snapshot, snapshot);
        lemma_structural_same(snapshot);
        assert forall|j: int| 0 < j < n implies modified_matched(matches, j) by {
            assert(matches[j].modified == j);
        }
        assert forall|i: int| 0 < i < n implies original_matched(matches, i) by {
            assert(matches[i].original == i);
        }
        lemma_no_creations(root, snapshot, snapshot, matches, n);
        lemma_no_deletions(root, snapshot, matches, n);
        lemma_no_renames(root, snapshot, snapshot, matches, matches.len());
        lemma_deepest_first_empty();
    }
}

/// Reconciling a well-formed tree with itself yields the empty plan. Where every entity
/// of the tree carries an identity, no identity may occur twice, or the tree is rejected.
pub proof fn lemma_reconcile_unchanged(root: Seq<char>, tree: crate::tree::TreeNode)
    requires
        crate::tree::well_formed(tree),
        crate::entity::all_identified(crate::entity::spec_snapshot(tree)) ==> unique_ids(
            crate::entity::spec_snapshot(tree),
        ),
        crate::entity::spec_snapshot(tree).len() <= usize::MAX,
    ensures
        crate::reconcile::spec_reconcile(root, tree, tree) == Ok::<
            Seq<OpView>,
            crate::error::AppErrorView,
        >(Seq::empty()),
{
    crate::laws::snapshots::lemma_snapshot_closed(tree);
    lemma_unchanged_plans_nothing_either_way(root, crate::entity::spec_snapshot(tree));
}

/// Reconciling a text with itself yields the empty plan, where the text lists a tree and
/// lists no path twice.
pub proof fn lemma_reconcile_text_unchanged(root: Seq<char>, text: Seq<char>)
    requires
        crate::treetext::spec_parse_tree_text(text) matches Ok(listing)
            && crate::entity::unique_paths(crate::reconcile::spec_unnamed(listing))
            && listing.len() <= usize::MAX,
    ensures
        crate::reconcile::spec_reconcile_texts(root, text, text) == Ok::<
            Seq<OpView>,
            crate::error::AppErrorView,
        >(Seq::empty()),
{
    let listing = crate::treetext::spec_parse_tree_text(text)->Ok_0;
    let snapshot = crate::reconcile::spec_unnamed(listing);
    let n = snapshot.len();
    let matches = structural_matches(snapshot, snapshot);
    lemma_structural_same(snapshot);
    assert forall|j: int| 0 < j < n implies modified_matched(matches, j) by {
        assert(matches[j].modified == j);
    }
    assert forall|i: int| 0 < i < n implies original_matched(matches, i) by {
        assert(matches[i].original == i);
    }
    lemma_no_creations(root, snapshot, snapshot, matches, n);
    lemma_no_deletions(root, snapshot, matches, n);
    lemma_no_renames(root, snapshot, snapshot, matches, matches.len());
    lemma_deepest_first_empty();
}

/// Where the modified snapshot is the original one without its entity at `k`, the pairs
/// that kept their place are all the modified entities, each with the original entity it
/// came from.
pub proof fn lemma_exact_phase_skip(original: Seq<EntityView>, k: int, n: nat)
    requires
        crate::entity::unique_paths(original),
        original.len() <= usize::MAX,
        0 < k < original.len(),
        n <= original.remove(k).len(),
    ensures
        exact_phase(original, original.remove(k), n) == skip_pairing(k as nat, n),
    decreases n,
{
    let modified = original.remove(k);
    if n > 0 {
        let j = (n - 1) as nat;
        lemma_exact_phase_skip(original, k, j);
        let before = exact_phase(original, modified, j);
        if j > 0 {
            let i = origin_of(k as nat, j as int);
            assert(modified[j as int] == original[i]);
            assert(!original_matched(before, i)) by {
                if original_matched(before, i) {
                    let l = choose|l: int| 0 <= l < before.len() && (#[trigger] before[l]).original
                        == i;
                    assert(before[l].original == origin_of(k as nat, l));
                }
            }
            lemma_free_at_is(
                original,
                before,
                true,
                modified[j as int].path,
                modified[j as int].is_dir,
                1,
                i as nat,
            );
        }
        assert(exact_phase(original, modified, n) =~= skip_pairing(k as nat, n));
    } else {
        assert(exact_phase(original, modified, n) =~= skip_pairing(k as nat, n));
    }
}

/// Where every modified entity below the root has a partner, no original entity finds a
/// candidate, and the pairing of directories and of files adds nothing.
pub proof fn lemma_no_candidates(
    original: Seq<EntityView>,
    modified: Seq<EntityView>,
    matches: Seq<Match>,
    i: int,
    n: nat,
)
    requires
        forall|j: int| 0 < j < modified.len() ==> modified_matched(matches, j),
    ensures
        crate::fuzzy::best_directory(original, modified, matches, i, n) is None,
        crate::fuzzy::best_file(original, modified, matches, i, n) is None,
    decreases n,
{
    if n > 0 {
        lemma_no_candidates(original, modified, matches, i, (n - 1) as nat);
    }
}

/// Where every modified entity below the root has a partner, the pairing of directories
/// and the pairing of files add nothing.
pub proof fn lemma_phases_idle_without_candidates(
    original: Seq<EntityView>,
    modified: Seq<EntityView>,
    start: Seq<Match>,
    n: nat,
)
    requires
        forall|j: int| 0 < j < modified.len() ==> modified_matched(start, j),
    ensures
        directory_phase(original, modified, start, n) == start,
        file_phase(original, modified, start, n) == start,
    decreases n,
{
    if n > 0 {
        lemma_phases_idle_without_candidates(original, modified, start, (n - 1) as nat);
        lemma_no_candidates(original, modified, start, n - 1, modified.len());
    }
}

/// Where one entity below the root is gone and everything else is as it was, the plan is
/// the one deletion of that entity, whichever way the two snapshots are paired.
pub proof fn lemma_single_removal_either_way(root: Seq<char>, original: Seq<EntityView>, k: int)
    requires
        crate::entity::unique_paths(original),
        crate::reconcile::by_identity(original, original.remove(k)) ==> unique_ids(original),
        original.len() <= usize::MAX,
        0 < k < original.len(),
    ensures
        spec_plan(
            root,
            original,
            original.remove(k),
            crate::reconcile::spec_correspondence(original, original.remove(k)),
        ) == seq![OpView::Delete { path: spec_absolute(root, original[k].path) }],
{
    let modified = original.remove(k);
    if crate::reconcile::by_identity(original, modified) {
        lemma_single_removal(root, original, k);
    } else {
        let n = modified.len();
        lemma_exact_phase_skip(original, k, n);
        let exact = exact_phase(original, modified, n);
        assert forall|j: int| 0 < j < n implies modified_matched(exact, j) by {
            assert(exact[j].modified == j);
        }
        lemma_phases_idle_without_candidates(original, modified, exact, original.len());
        let matches = structural_matches(original, modified);
        assert(matches == exact);
        assert forall|i: int| 0 < i < original.len() implies (original_matched(matches, i) <==> i
            != k) by {
            if i < k {
                assert(matches[i].original == i);
            } else if i > k {
                assert(matches[i - 1].original == i);
            }
        }
        assert forall|l: int| 0 <= l < matches.len() implies !moves(
            original,
            modified,
            #[trigger] matches[l],
        ) by {}
        lemma_no_creations(root, original, modified, matches, n);
        lemma_no_renames(root, original, modified, matches, matches.len());
        lemma_one_deletion(root, original, matches, k, original.len());
        lemma_deepest_first_single(
            OpView::Delete { path: spec_absolute(root, original[k].path) },
        );
        lemma_deepest_first_empty();
        assert(spec_plan(root, original, modified, matches) =~= seq![
            OpView::Delete { path: spec_absolute(root, original[k].path) },
        ]);
    }
}

} // verus!
