//! The planner: from a correspondence to an ordered list of operations.
//!
//! The plan has three phases in this order: creations, renames, deletions. Creations come
//! in the order of the modified snapshot, so a directory comes before what it holds.
//! Renames and deletions come deepest path first, so that what lies in a directory is
//! dealt with before the directory itself. The root of a snapshot stands for the working
//! directory and is never created, renamed or deleted.

use vstd::prelude::*;
use crate::entity::{entities_view, Entity, EntityView};
use crate::operation::{ops_view, FileOperation, OpView};
use crate::resolve::{
    is_modified_matched,
    is_original_matched,
    modified_matched,
    original_matched,
    Match,
};
use crate::text::{chars_of, concat3};

verus! {

/// The number of `/` in `p`.
pub open spec fn count_slashes(p: Seq<char>) -> nat
    decreases p.len(),
{
    if p.len() == 0 {
        0
    } else {
        count_slashes(p.drop_last()) + if p.last() == '/' {
            1nat
        } else {
            0nat
        }
    }
}

/// The number of `/` in `path`.
pub fn slash_count(path: &str) -> (n: usize)
    ensures
        n == count_slashes(path@),
{
    let v = chars_of(path);
    let mut n: usize = 0;
    let mut i: usize = 0;
    while i < v.len()
        invariant
            i <= v.len(),
            n <= i,
            n == count_slashes(v@.subrange(0, i as int)),
        decreases v.len() - i,
    {
        assert(v@.subrange(0, i + 1).drop_last() =~= v@.subrange(0, i as int));
        if v[i] == '/' {
            n = n + 1;
        }
        i = i + 1;
    }
    assert(v@.subrange(0, v.len() as int) =~= v@);
    n
}

/// The place of the entity with relative path `rel` under the working directory `root`:
/// `root` itself for the empty path, else `root`, a `/` and `rel`.
pub open spec fn spec_absolute(root: Seq<char>, rel: Seq<char>) -> Seq<char> {
    if rel.len() == 0 {
        root
    } else {
        root + seq!['/'] + rel
    }
}

/// The place of the entity with relative path `rel` under the working directory `root`.
pub fn absolute_path(root: &str, rel: &str) -> (p: String)
    ensures
        p@ == spec_absolute(root@, rel@),
{
    if rel.unicode_len() == 0 {
        root.to_owned()
    } else {
        proof {
            reveal_strlit("/");
            assert("/"@ =~= seq!['/']);
        }
        concat3(root, "/", rel)
    }
}

/// Whether `a` is the path of a directory above `b`: `b` continues `a` with a `/` and
/// more. The empty path, that of the root, lies above every other path.
pub open spec fn is_ancestor_path(a: Seq<char>, b: Seq<char>) -> bool {
    if a.len() == 0 {
        b.len() > 0
    } else {
        b.len() > a.len() && b.subrange(0, a.len() as int) == a && b[a.len() as int] == '/'
    }
}

/// Whether `a` is the path of a directory above `b`.
pub fn path_is_above(a: &str, b: &str) -> (r: bool)
    ensures
        r == is_ancestor_path(a@, b@),
{
    let va = chars_of(a);
    let vb = chars_of(b);
    if va.len() == 0 {
        return vb.len() > 0;
    }
    if vb.len() <= va.len() {
        return false;
    }
    let mut i: usize = 0;
    while i < va.len()
        invariant
            i <= va.len() < vb.len(),
            va@ == a@,
            vb@ == b@,
            vb@.subrange(0, i as int) == va@.subrange(0, i as int),
        decreases va.len() - i,
    {
        if va[i] != vb[i] {
            assert(vb@.subrange(0, va.len() as int)[i as int] != va@[i as int]);
            return false;
        }
        assert(vb@.subrange(0, i + 1) =~= vb@.subrange(0, i as int).push(vb@[i as int]));
        assert(va@.subrange(0, i + 1) =~= va@.subrange(0, i as int).push(va@[i as int]));
        i = i + 1;
    }
    assert(va@.subrange(0, va.len() as int) =~= va@);
    vb[va.len()] == '/'
}

/// Whether the match `m` moves its entity: it is not inherited, it pairs two entities
/// below the roots, and their paths differ.
pub open spec fn moves(original: Seq<EntityView>, modified: Seq<EntityView>, m: Match) -> bool {
    &&& !m.inherited
    &&& 0 < m.original < original.len()
    &&& 0 < m.modified < modified.len()
    &&& original[m.original as int].path != modified[m.modified as int].path
}

/// Whether the modified entity at `j` is where a rename of the plan ends.
pub open spec fn is_rename_target(
    original: Seq<EntityView>,
    modified: Seq<EntityView>,
    matches: Seq<Match>,
    j: int,
) -> bool {
    exists|k: int|
        0 <= k < matches.len() && (#[trigger] matches[k]).modified == j && moves(
            original,
            modified,
            matches[k],
        )
}

/// Whether the modified entity at `a` is a new directory or the end of a rename, and so
/// stands for a path that the plan brings into being.
pub open spec fn comes_into_being(
    original: Seq<EntityView>,
    modified: Seq<EntityView>,
    matches: Seq<Match>,
    a: int,
) -> bool {
    (!modified_matched(matches, a) && modified[a].is_dir) || is_rename_target(
        original,
        modified,
        matches,
        a,
    )
}

/// Whether the modified entity at `j` lies below a modified entity, other than the root,
/// whose path the plan brings into being.
pub open spec fn covered(
    original: Seq<EntityView>,
    modified: Seq<EntityView>,
    matches: Seq<Match>,
    j: int,
) -> bool {
    exists|a: int|
        0 < a < modified.len() && is_ancestor_path(
            (#[trigger] modified[a]).path,
            modified[j].path,
        ) && comes_into_being(original, modified, matches, a)
}

/// The creation, if any, that the modified entity at `j` calls for: none for the root and
/// for a matched entity; a file for a new file; a directory for a new directory that is
/// not covered.
pub open spec fn creation_at(
    root: Seq<char>,
    original: Seq<EntityView>,
    modified: Seq<EntityView>,
    matches: Seq<Match>,
    j: int,
) -> Option<OpView> {
    if j <= 0 || j >= modified.len() || modified_matched(matches, j) {
        None
    } else if !modified[j].is_dir {
        Some(OpView::CreateFile { path: spec_absolute(root, modified[j].path) })
    } else if covered(original, modified, matches, j) {
        None
    } else {
        Some(OpView::CreateDir { path: spec_absolute(root, modified[j].path) })
    }
}

/// The creations for the first `n` modified entities, in their order.
pub open spec fn creations(
    root: Seq<char>,
    original: Seq<EntityView>,
    modified: Seq<EntityView>,
    matches: Seq<Match>,
    n: nat,
) -> Seq<OpView>
    decreases n,
{
    if n == 0 {
        Seq::empty()
    } else {
        let before = creations(root, original, modified, matches, (n - 1) as nat);
        match creation_at(root, original, modified, matches, n - 1) {
            Some(op) => before.push(op),
            None => before,
        }
    }
}

/// The rename that the match `m` calls for.
pub open spec fn rename_of(
    root: Seq<char>,
    original: Seq<EntityView>,
    modified: Seq<EntityView>,
    m: Match,
) -> OpView {
    OpView::Rename {
        from: spec_absolute(root, original[m.original as int].path),
        to: spec_absolute(root, modified[m.modified as int].path),
    }
}

/// The renames for the first `n` matches, in their order: one for each match that moves.
pub open spec fn renames(
    root: Seq<char>,
    original: Seq<EntityView>,
    modified: Seq<EntityView>,
    matches: Seq<Match>,
    n: nat,
) -> Seq<OpView>
    decreases n,
{
    if n == 0 || n > matches.len() {
        Seq::empty()
    } else {
        let before = renames(root, original, modified, matches, (n - 1) as nat);
        if moves(original, modified, matches[n - 1]) {
            before.push(rename_of(root, original, modified, matches[n - 1]))
        } else {
            before
        }
    }
}

/// The deletions for the first `n` original entities, in their order: one for each
/// unmatched entity below the root.
pub open spec fn deletions(
    root: Seq<char>,
    original: Seq<EntityView>,
    matches: Seq<Match>,
    n: nat,
) -> Seq<OpView>
    decreases n,
{
    if n == 0 || n > original.len() {
        Seq::empty()
    } else {
        let before = deletions(root, original, matches, (n - 1) as nat);
        if n - 1 > 0 && !original_matched(matches, n - 1) {
            before.push(OpView::Delete { path: spec_absolute(root, original[n - 1].path) })
        } else {
            before
        }
    }
}

/// The depth by which an operation is ordered: the number of separators in its source.
pub open spec fn depth_key(op: OpView) -> nat {
    count_slashes(op.source())
}

/// The largest depth among the first `n` of `ops`, 0 when there is none.
pub open spec fn max_depth(ops: Seq<OpView>, n: nat) -> nat
    decreases n,
{
    if n == 0 || n > ops.len() {
        0
    } else {
        let before = max_depth(ops, (n - 1) as nat);
        if depth_key(ops[n - 1]) > before {
            depth_key(ops[n - 1])
        } else {
            before
        }
    }
}

/// Those of the first `n` of `ops` that have depth `d`, in their order.
pub open spec fn at_depth(ops: Seq<OpView>, d: nat, n: nat) -> Seq<OpView>
    decreases n,
{
    if n == 0 || n > ops.len() {
        Seq::empty()
    } else {
        let before = at_depth(ops, d, (n - 1) as nat);
        if depth_key(ops[n - 1]) == d {
            before.push(ops[n - 1])
        } else {
            before
        }
    }
}

/// The operations of `ops` of depth `d` or less: those of depth `d` in their order, then
/// those of depth `d - 1`, and so on down to depth 0.
pub open spec fn from_depth_down(ops: Seq<OpView>, d: nat) -> Seq<OpView>
    decreases d,
{
    if d == 0 {
        at_depth(ops, 0, ops.len())
    } else {
        at_depth(ops, d, ops.len()) + from_depth_down(ops, (d - 1) as nat)
    }
}

/// `ops` with the deepest first; operations of the same depth keep their order.
pub open spec fn deepest_first(ops: Seq<OpView>) -> Seq<OpView> {
    from_depth_down(ops, max_depth(ops, ops.len()))
}

/// The whole plan: the creations, then the renames deepest first, then the deletions
/// deepest first.
pub open spec fn spec_plan(
    root: Seq<char>,
    original: Seq<EntityView>,
    modified: Seq<EntityView>,
    matches: Seq<Match>,
) -> Seq<OpView> {
    creations(root, original, modified, matches, modified.len()) + deepest_first(
        renames(root, original, modified, matches, matches.len()),
    ) + deepest_first(deletions(root, original, matches, original.len()))
}

/// The source path of `op`.
fn source_of(op: &FileOperation) -> (s: &String)
    ensures
        s@ == op@.source(),
{
    match op {
        FileOperation::CreateDir { path } => path,
        FileOperation::CreateFile { path } => path,
        FileOperation::Rename { from, to } => from,
        FileOperation::Delete { path } => path,
    }
}

/// Pushing an operation pushes its view.
pub proof fn lemma_ops_view_push(ops: Seq<FileOperation>, op: FileOperation)
    ensures
        ops_view(ops.push(op)) == ops_view(ops).push(op@),
{
    assert(ops_view(ops.push(op)) =~= ops_view(ops).push(op@));
}

/// Orders `ops` deepest source path first. Operations of the same depth keep their order.
pub fn sort_deepest_first(ops: &Vec<FileOperation>) -> (out: Vec<FileOperation>)
    ensures
        ops_view(out@) == deepest_first(ops_view(ops@)),
{
    let ghost ov = ops_view(ops@);
    let mut keys: Vec<usize> = Vec::new();
    let mut deepest: usize = 0;
    let mut i: usize = 0;
    while i < ops.len()
        invariant
            i <= ops.len(),
            ov == ops_view(ops@),
            keys.len() == i,
            forall|k: int| 0 <= k < i ==> keys@[k] == depth_key(#[trigger] ov[k]),
            deepest == max_depth(ov, i as nat),
        decreases ops.len() - i,
    {
        let key = slash_count(source_of(&ops[i]).as_str());
        keys.push(key);
        if key > deepest {
            deepest = key;
        }
        i = i + 1;
    }
    let mut out: Vec<FileOperation> = Vec::new();
    let mut d: usize = deepest;
    assert(ops_view(out@) =~= Seq::<OpView>::empty());
    loop
        invariant_except_break
            d <= deepest,
            ov == ops_view(ops@),
            keys.len() == ops.len(),
            forall|k: int| 0 <= k < ops.len() ==> keys@[k] == depth_key(#[trigger] ov[k]),
            ops_view(out@) + from_depth_down(ov, d as nat) == from_depth_down(
                ov,
                deepest as nat,
            ),
        ensures
            ops_view(out@) == from_depth_down(ov, deepest as nat),
        decreases d,
    {
        let ghost before = ops_view(out@);
        let mut j: usize = 0;
        while j < ops.len()
            invariant
                j <= ops.len(),
                ov == ops_view(ops@),
                keys.len() == ops.len(),
                forall|k: int| 0 <= k < ops.len() ==> keys@[k] == depth_key(#[trigger] ov[k]),
                ops_view(out@) == before + at_depth(ov, d as nat, j as nat),
            decreases ops.len() - j,
        {
            if keys[j] == d {
                let op = ops[j].duplicate();
                proof {
                    lemma_ops_view_push(out@, op);
                }
                out.push(op);
            }
            j = j + 1;
        }
        if d == 0 {
            break;
        }
        d = d - 1;
    }
    out
}

/// Whether the match at `m` moves its entity.
fn match_moves(original: &Vec<Entity>, modified: &Vec<Entity>, m: &Match) -> (b: bool)
    ensures
        b == moves(entities_view(original@), entities_view(modified@), *m),
{
    if m.inherited || m.original == 0 || m.modified == 0 || m.original >= original.len()
        || m.modified >= modified.len() {
        return false;
    }
    original[m.original].path != modified[m.modified].path
}

/// Whether the modified entity at `j` is where a rename of the plan ends.
fn rename_ends_at(
    original: &Vec<Entity>,
    modified: &Vec<Entity>,
    matches: &Vec<Match>,
    j: usize,
) -> (b: bool)
    ensures
        b == is_rename_target(
            entities_view(original@),
            entities_view(modified@),
            matches@,
            j as int,
        ),
{
    let mut k: usize = 0;
    while k < matches.len()
        invariant
            k <= matches.len(),
            forall|l: int|
                0 <= l < k ==> !((#[trigger] matches@[l]).modified == j && moves(
                    entities_view(original@),
                    entities_view(modified@),
                    matches@[l],
                )),
        decreases matches.len() - k,
    {
        if matches[k].modified == j && match_moves(original, modified, &matches[k]) {
            return true;
        }
        k = k + 1;
    }
    false
}

/// Whether the modified entity at `j` lies below one whose path the plan brings into
/// being.
fn is_covered(original: &Vec<Entity>, modified: &Vec<Entity>, matches: &Vec<Match>, j: usize) -> (b:
    bool)
    requires
        j < modified.len(),
    ensures
        b == covered(entities_view(original@), entities_view(modified@), matches@, j as int),
{
    let ghost o = entities_view(original@);
    let ghost m = entities_view(modified@);
    let mut a: usize = 1;
    while a < modified.len()
        invariant
            1 <= a,
            j < modified.len(),
            o == entities_view(original@),
            m == entities_view(modified@),
            forall|b: int|
                0 < b < a && b < m.len() ==> !(is_ancestor_path(
                    (#[trigger] m[b]).path,
                    m[j as int].path,
                ) && comes_into_being(o, m, matches@, b)),
        decreases modified.len() - a,
    {
        if path_is_above(modified[a].path.as_str(), modified[j].path.as_str()) {
            let new_dir = modified[a].is_dir && !is_modified_matched(matches, a);
            if new_dir || rename_ends_at(original, modified, matches, a) {
                assert(is_ancestor_path(m[a as int].path, m[j as int].path));
                return true;
            }
        }
        a = a + 1;
    }
    false
}

/// Plans the operations that turn the original snapshot into the modified one, given the
/// correspondence `matches` between them and the working directory `root`.
///
/// Every unmatched modified entity below the root is created, except a directory that
/// lies below a new directory or below the end of a rename. Every match that is not
/// inherited and whose two paths differ becomes a rename from the original place to the
/// modified one. Every unmatched original entity below the root is deleted. Creations
/// come first, in the order of the modified snapshot; renames follow, deepest source
/// first; deletions come last, deepest first.
pub fn plan_operations(
    root: &str,
    original: &Vec<Entity>,
    modified: &Vec<Entity>,
    matches: &Vec<Match>,
) -> (plan: Vec<FileOperation>)
    ensures
        ops_view(plan@) == spec_plan(
            root@,
            entities_view(original@),
            entities_view(modified@),
            matches@,
        ),
{
    let ghost o = entities_view(original@);
    let ghost m = entities_view(modified@);
    let mut plan: Vec<FileOperation> = Vec::new();
    assert(ops_view(plan@) =~= Seq::<OpView>::empty());
    let mut j: usize = 0;
    while j < modified.len()
        invariant
            j <= modified.len(),
            o == entities_view(original@),
            m == entities_view(modified@),
            ops_view(plan@) == creations(root@, o, m, matches@, j as nat),
        decreases modified.len() - j,
    {
        if j > 0 && !is_modified_matched(matches, j) {
            if !modified[j].is_dir {
                let op = FileOperation::CreateFile {
                    path: absolute_path(root, modified[j].path.as_str()),
                };
                proof {
                    lemma_ops_view_push(plan@, op);
                }
                plan.push(op);
            } else if !is_covered(original, modified, matches, j) {
                let op = FileOperation::CreateDir {
                    path: absolute_path(root, modified[j].path.as_str()),
                };
                proof {
                    lemma_ops_view_push(plan@, op);
                }
                plan.push(op);
            }
        }
        j = j + 1;
    }
    let mut moved: Vec<FileOperation> = Vec::new();
    assert(ops_view(moved@) =~= Seq::<OpView>::empty());
    let mut k: usize = 0;
    while k < matches.len()
        invariant
            k <= matches.len(),
            o == entities_view(original@),
            m == entities_view(modified@),
            ops_view(moved@) == renames(root@, o, m, matches@, k as nat),
        decreases matches.len() - k,
    {
        if match_moves(original, modified, &matches[k]) {
            let op = FileOperation::Rename {
                from: absolute_path(root, original[matches[k].original].path.as_str()),
                to: absolute_path(root, modified[matches[k].modified].path.as_str()),
            };
            proof {
                lemma_ops_view_push(moved@, op);
            }
            moved.push(op);
        }
        k = k + 1;
    }
    let mut removed: Vec<FileOperation> = Vec::new();
    assert(ops_view(removed@) =~= Seq::<OpView>::empty());
    let mut i: usize = 0;
    while i < original.len()
        invariant
            i <= original.len(),
            o == entities_view(original@),
            ops_view(removed@) == deletions(root@, o, matches@, i as nat),
        decreases original.len() - i,
    {
        if i > 0 && !is_original_matched(matches, i) {
            let op = FileOperation::Delete {
                path: absolute_path(root, original[i].path.as_str()),
            };
            proof {
                lemma_ops_view_push(removed@, op);
            }
            removed.push(op);
        }
        i = i + 1;
    }
    let mut moved_sorted = sort_deepest_first(&moved);
    let mut removed_sorted = sort_deepest_first(&removed);
    let ghost created = ops_view(plan@);
    proof {
        lemma_ops_view_append(plan@, moved_sorted@);
    }
    plan.append(&mut moved_sorted);
    proof {
        lemma_ops_view_append(plan@, removed_sorted@);
    }
    plan.append(&mut removed_sorted);
    plan
}

/// The views of two sequences in a row are the views of the sequences in a row.
pub proof fn lemma_ops_view_append(a: Seq<FileOperation>, b: Seq<FileOperation>)
    ensures
        ops_view(a + b) == ops_view(a) + ops_view(b),
{
    assert(ops_view(a + b) =~= ops_view(a) + ops_view(b));
}

/// Whether `path` is one of the two places in the working directory `root` that belong
/// to the keeping of backups, or lies below one of them.
pub open spec fn in_reserved_area(root: Seq<char>, path: Seq<char>) -> bool {
    let backups = spec_absolute(root, crate::backup::backup_area());
    let holding = spec_absolute(root, crate::backup::holding_area());
    ||| path == backups
    ||| is_ancestor_path(backups, path)
    ||| path == holding
    ||| is_ancestor_path(holding, path)
}

/// Whether the operation `op` starts or ends in a place that belongs to the keeping of
/// backups.
pub open spec fn touches_reserved(root: Seq<char>, op: OpView) -> bool {
    in_reserved_area(root, op.source()) || in_reserved_area(root, op.target())
}

/// Those of the first `n` of `ops` that neither start nor end in a place that belongs to
/// the keeping of backups, in their order.
pub open spec fn shielded(root: Seq<char>, ops: Seq<OpView>, n: nat) -> Seq<OpView>
    decreases n,
{
    if n == 0 || n > ops.len() {
        Seq::empty()
    } else {
        let before = shielded(root, ops, (n - 1) as nat);
        if touches_reserved(root, ops[n - 1]) {
            before
        } else {
            before.push(ops[n - 1])
        }
    }
}

/// The plan as it is handed out: the plan without the operations that start or end in a
/// place that belongs to the keeping of backups.
pub open spec fn spec_safe_plan(
    root: Seq<char>,
    original: Seq<EntityView>,
    modified: Seq<EntityView>,
    matches: Seq<Match>,
) -> Seq<OpView> {
    shielded(
        root,
        spec_plan(root, original, modified, matches),
        spec_plan(root, original, modified, matches).len(),
    )
}

/// Whether `path` is a place in the working directory `root` that belongs to the keeping
/// of backups.
pub fn is_in_reserved_area(root: &str, path: &str) -> (r: bool)
    ensures
        r == in_reserved_area(root@, path@),
{
    let backups = absolute_path(root, ".treenamer_backup");
    let holding = absolute_path(root, ".treenamer_temp");
    let p = path.to_owned();
    p == backups || path_is_above(backups.as_str(), path) || p == holding || path_is_above(
        holding.as_str(),
        path,
    )
}

/// The target of `op`.
fn target_of(op: &FileOperation) -> (s: &String)
    ensures
        s@ == op@.target(),
{
    match op {
        FileOperation::CreateDir { path } => path,
        FileOperation::CreateFile { path } => path,
        FileOperation::Rename { from, to } => to,
        FileOperation::Delete { path } => path,
    }
}

/// Takes out of `ops` every operation that starts or ends in a place that belongs to the
/// keeping of backups. No operation of the result touches such a place.
pub fn shield(root: &str, ops: &Vec<FileOperation>) -> (out: Vec<FileOperation>)
    ensures
        ops_view(out@) == shielded(root@, ops_view(ops@), ops@.len()),
        forall|p: int|
            0 <= p < out@.len() ==> !touches_reserved(root@, #[trigger] ops_view(out@)[p]),
{
    let ghost ov = ops_view(ops@);
    let mut out: Vec<FileOperation> = Vec::new();
    assert(ops_view(out@) =~= Seq::<OpView>::empty());
    let mut i: usize = 0;
    while i < ops.len()
        invariant
            i <= ops.len(),
            ov == ops_view(ops@),
            ops_view(out@) == shielded(root@, ov, i as nat),
        decreases ops.len() - i,
    {
        assert(ov[i as int] == ops@[i as int]@);
        let touched = is_in_reserved_area(root, source_of(&ops[i]).as_str())
            || is_in_reserved_area(root, target_of(&ops[i]).as_str());
        if !touched {
            let op = ops[i].duplicate();
            proof {
                lemma_ops_view_push(out@, op);
            }
            out.push(op);
        }
        i = i + 1;
    }
    proof {
        lemma_shielded(root@, ov, ov.len());
    }
    out
}

/// What is left after the shielding touches no place that belongs to the keeping of
/// backups, and is part of what was there.
pub proof fn lemma_shielded(root: Seq<char>, ops: Seq<OpView>, n: nat)
    requires
        n <= ops.len(),
    ensures
        shielded(root, ops, n).len() <= n,
        forall|p: int|
            0 <= p < shielded(root, ops, n).len() ==> !touches_reserved(
                root,
                #[trigger] shielded(root, ops, n)[p],
            ) && ops.contains(shielded(root, ops, n)[p]),
    decreases n,
{
    if n > 0 {
        lemma_shielded(root, ops, (n - 1) as nat);
        let before = shielded(root, ops, (n - 1) as nat);
        let now = shielded(root, ops, n);
        assert forall|p: int| 0 <= p < now.len() implies !touches_reserved(
            root,
            #[trigger] now[p],
        ) && ops.contains(now[p]) by {
            if p < before.len() {
                assert(now[p] == before[p]);
            } else {
                assert(now[p] == ops[n - 1]);
            }
        }
    }
}

/// Where no operation touches a place that belongs to the keeping of backups, the
/// shielding takes nothing out.
pub proof fn lemma_shielded_all(root: Seq<char>, ops: Seq<OpView>, n: nat)
    requires
        n <= ops.len(),
        forall|p: int| 0 <= p < ops.len() ==> !touches_reserved(root, #[trigger] ops[p]),
    ensures
        shielded(root, ops, n) == ops.take(n as int),
    decreases n,
{
    if n > 0 {
        lemma_shielded_all(root, ops, (n - 1) as nat);
        assert(ops.take(n as int) =~= ops.take(n - 1).push(ops[n - 1]));
    } else {
        assert(ops.take(0) =~= Seq::<OpView>::empty());
    }
}

} // verus!
