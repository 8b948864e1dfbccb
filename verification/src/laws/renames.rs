//! The law of the single rename, stated of trees.

use vstd::prelude::*;
use crate::entity::{
    all_identified,
    entity_of,
    flatten_children,
    spec_flatten,
    spec_snapshot,
    unique_ids,
    EntityView,
};
use crate::laws::changes::{held_alike, lemma_single_rename, renamed_at};
use crate::laws::snapshots::{lemma_join_facts, lemma_no_slash};
use crate::operation::OpView;
use crate::plan::spec_absolute;
use crate::text::{lemma_last_slash_append, spec_base_name, spec_dir_of, spec_join};
use crate::tree::{sound_children, sound_node, valid_name, well_formed, TreeNode};

verus! {

/// Whether the trees `a` and `b` are the same but for the names in them: entity by
/// entity they have the same identity, the same kind and as many children.
pub open spec fn same_but_names(a: TreeNode, b: TreeNode) -> bool
    decreases a, 0nat,
{
    &&& a.id@ == b.id@
    &&& a.is_dir == b.is_dir
    &&& a.children@.len() == b.children@.len()
    &&& same_but_names_all(a.children@, b.children@, a.children@.len())
}

/// Whether the first `n` trees of `a` and of `b` are the same but for the names in them.
pub open spec fn same_but_names_all(a: Seq<TreeNode>, b: Seq<TreeNode>, n: nat) -> bool
    decreases a, n,
{
    if n == 0 || n > a.len() || n > b.len() {
        true
    } else {
        same_but_names_all(a, b, (n - 1) as nat) && same_but_names(a[n - 1], b[n - 1])
    }
}

/// The names of the entities of the tree at `node`, in pre-order.
pub open spec fn names_of(node: TreeNode) -> Seq<Seq<char>>
    decreases node, 0nat,
{
    seq![node.name@] + names_of_all(node.children@, node.children@.len())
}

/// The names of the entities of the first `n` trees of `nodes`, in pre-order.
pub open spec fn names_of_all(nodes: Seq<TreeNode>, n: nat) -> Seq<Seq<char>>
    decreases nodes, n,
{
    if n == 0 || n > nodes.len() {
        Seq::empty()
    } else {
        names_of_all(nodes, (n - 1) as nat) + names_of(nodes[n - 1])
    }
}

/// The last segment of the path of an entry in a directory is the name of the entry.
pub proof fn lemma_base_name_of_join(parent: Seq<char>, name: Seq<char>)
    requires
        valid_name(name),
    ensures
        spec_base_name(spec_join(parent, name)) == name,
{
    let p = spec_join(parent, name);
    if parent.len() == 0 {
        lemma_no_slash(name);
        assert(name.subrange(0, name.len() as int) =~= name);
    } else {
        lemma_last_slash_append(parent, name);
        assert(p.subrange(parent.len() as int + 1, p.len() as int) =~= name);
    }
}

/// Whether two flat listings go together entity by entity: as many entities, each pair
/// with the same identity and kind, the names as listed, and every entity in a directory
/// that stands at the same earlier position in both listings or, at the top of a subtree,
/// in the directories `top_a` and `top_b`.
pub open spec fn alongside(
    la: Seq<EntityView>,
    lb: Seq<EntityView>,
    na: Seq<Seq<char>>,
    nb: Seq<Seq<char>>,
    top_a: Seq<char>,
    top_b: Seq<char>,
) -> bool {
    &&& la.len() == lb.len()
    &&& na.len() == la.len()
    &&& nb.len() == la.len()
    &&& forall|j: int|
        0 <= j < la.len() ==> {
            &&& (#[trigger] la[j]).id == lb[j].id
            &&& la[j].is_dir == lb[j].is_dir
            &&& spec_base_name(la[j].path) == na[j]
            &&& spec_base_name(lb[j].path) == nb[j]
            &&& (spec_dir_of(la[j].path) == top_a && spec_dir_of(lb[j].path) == top_b) || exists|
                p: int,
            |
                0 <= p < j && (#[trigger] la[p]).path == spec_dir_of(la[j].path) && lb[p].path
                    == spec_dir_of(lb[j].path)
        }
}

/// The flat listings of two sound trees that are the same but for their names go
/// together.
pub proof fn lemma_flatten_alongside(a: TreeNode, b: TreeNode, pa: Seq<char>, pb: Seq<char>)
    requires
        same_but_names(a, b),
        sound_node(a),
        sound_node(b),
        valid_name(a.name@),
        valid_name(b.name@),
        pa.len() > 0 ==> pa[0] != '/',
        pb.len() > 0 ==> pb[0] != '/',
    ensures
        alongside(spec_flatten(a, pa), spec_flatten(b, pb), names_of(a), names_of(b), pa, pb),
        spec_flatten(a, pa).len() > 0,
        spec_flatten(a, pa)[0].path == spec_join(pa, a.name@),
        spec_flatten(b, pb)[0].path == spec_join(pb, b.name@),
    decreases a, 1nat,
{
    let ta = spec_join(pa, a.name@);
    let tb = spec_join(pb, b.name@);
    lemma_join_facts(pa, a.name@);
    lemma_join_facts(pb, b.name@);
    lemma_base_name_of_join(pa, a.name@);
    lemma_base_name_of_join(pb, b.name@);
    let n = a.children@.len();
    lemma_children_alongside(a.children@, b.children@, ta, tb, n);
    let ca = flatten_children(a.children@, ta, n);
    let cb = flatten_children(b.children@, tb, n);
    let la = spec_flatten(a, pa);
    let lb = spec_flatten(b, pb);
    let na = names_of(a);
    let nb = names_of(b);
    let ka = names_of_all(a.children@, n);
    let kb = names_of_all(b.children@, n);
    assert(la =~= seq![entity_of(a, pa)] + ca);
    assert(lb =~= seq![entity_of(b, pb)] + cb);
    assert forall|j: int| 0 <= j < la.len() implies {
        &&& (#[trigger] la[j]).id == lb[j].id
        &&& la[j].is_dir == lb[j].is_dir
        &&& spec_base_name(la[j].path) == na[j]
        &&& spec_base_name(lb[j].path) == nb[j]
        &&& (spec_dir_of(la[j].path) == pa && spec_dir_of(lb[j].path) == pb) || exists|p: int|
            0 <= p < j && (#[trigger] la[p]).path == spec_dir_of(la[j].path) && lb[p].path
                == spec_dir_of(lb[j].path)
    } by {
        if j > 0 {
            assert(la[j] == ca[j - 1] && lb[j] == cb[j - 1]);
            assert(na[j] == ka[j - 1] && nb[j] == kb[j - 1]);
            if spec_dir_of(ca[j - 1].path) == ta && spec_dir_of(cb[j - 1].path) == tb {
                assert(la[0].path == ta && lb[0].path == tb);
            } else {
                let p = choose|p: int|
                    0 <= p < j - 1 && (#[trigger] ca[p]).path == spec_dir_of(ca[j - 1].path)
                        && cb[p].path == spec_dir_of(cb[j - 1].path);
                assert(la[p + 1] == ca[p] && lb[p + 1] == cb[p]);
            }
        }
    }
}

/// The flat listings of the children of two directories go together where the children
/// are the same but for their names.
pub proof fn lemma_children_alongside(
    ca: Seq<TreeNode>,
    cb: Seq<TreeNode>,
    pa: Seq<char>,
    pb: Seq<char>,
    n: nat,
)
    requires
        n <= ca.len(),
        ca.len() == cb.len(),
        same_but_names_all(ca, cb, ca.len()),
        sound_children(ca, ca.len()),
        sound_children(cb, cb.len()),
        pa.len() > 0 ==> pa[0] != '/',
        pb.len() > 0 ==> pb[0] != '/',
    ensures
        alongside(
            flatten_children(ca, pa, n),
            flatten_children(cb, pb, n),
            names_of_all(ca, n),
            names_of_all(cb, n),
            pa,
            pb,
        ),
    decreases ca, n,
{
    if n > 0 {
        lemma_children_alongside(ca, cb, pa, pb, (n - 1) as nat);
        crate::tree::lemma_sound_children_prefix(ca, n, ca.len());
        crate::tree::lemma_sound_children_prefix(cb, n, cb.len());
        lemma_same_prefix(ca, cb, n, ca.len());
        lemma_flatten_alongside(ca[n - 1], cb[n - 1], pa, pb);
        let ba = flatten_children(ca, pa, (n - 1) as nat);
        let bb = flatten_children(cb, pb, (n - 1) as nat);
        let sa = spec_flatten(ca[n - 1], pa);
        let sb = spec_flatten(cb[n - 1], pb);
        let la = flatten_children(ca, pa, n);
        let lb = flatten_children(cb, pb, n);
        let na = names_of_all(ca, n);
        let nb = names_of_all(cb, n);
        let nba = names_of_all(ca, (n - 1) as nat);
        let nbb = names_of_all(cb, (n - 1) as nat);
        let nsa = names_of(ca[n - 1]);
        let nsb = names_of(cb[n - 1]);
        assert(la =~= ba + sa);
        assert(lb =~= bb + sb);
        assert forall|j: int| 0 <= j < la.len() implies {
            &&& (#[trigger] la[j]).id == lb[j].id
            &&& la[j].is_dir == lb[j].is_dir
            &&& spec_base_name(la[j].path) == na[j]
            &&& spec_base_name(lb[j].path) == nb[j]
            &&& (spec_dir_of(la[j].path) == pa && spec_dir_of(lb[j].path) == pb) || exists|p: int|
                0 <= p < j && (#[trigger] la[p]).path == spec_dir_of(la[j].path) && lb[p].path
                    == spec_dir_of(lb[j].path)
        } by {
            if j < ba.len() {
                assert(la[j] == ba[j] && lb[j] == bb[j]);
                assert(na[j] == nba[j] && nb[j] == nbb[j]);
                if !(spec_dir_of(ba[j].path) == pa && spec_dir_of(bb[j].path) == pb) {
                    let p = choose|p: int|
                        0 <= p < j && (#[trigger] ba[p]).path == spec_dir_of(ba[j].path)
                            && bb[p].path == spec_dir_of(bb[j].path);
                    assert(la[p] == ba[p] && lb[p] == bb[p]);
                }
            } else {
                let i = j - ba.len();
                assert(la[j] == sa[i] && lb[j] == sb[i]);
                assert(na[j] == nsa[i] && nb[j] == nsb[i]);
                if !(spec_dir_of(sa[i].path) == pa && spec_dir_of(sb[i].path) == pb) {
                    let p = choose|p: int|
                        0 <= p < i && (#[trigger] sa[p]).path == spec_dir_of(sa[i].path)
                            && sb[p].path == spec_dir_of(sb[i].path);
                    assert(la[ba.len() + p] == sa[p] && lb[ba.len() + p] == sb[p]);
                }
            }
        }
    }
}

/// If the first `n` trees of two lists are the same but for their names, so are the
/// first `m` for every `m <= n`.
pub proof fn lemma_same_prefix(a: Seq<TreeNode>, b: Seq<TreeNode>, m: nat, n: nat)
    requires
        m <= n,
        n <= a.len(),
        n <= b.len(),
        same_but_names_all(a, b, n),
    ensures
        same_but_names_all(a, b, m),
        m > 0 ==> same_but_names(a[m - 1], b[m - 1]),
    decreases n,
{
    if m < n {
        lemma_same_prefix(a, b, m, (n - 1) as nat);
    }
}

/// The snapshots of two well-formed trees that are the same but for their names go
/// together: they list as many entities, pair by pair with the same identity and kind,
/// and the last segment of every path below the root is the name of its entity.
pub proof fn lemma_snapshots_alike(original: TreeNode, modified: TreeNode)
    requires
        well_formed(original),
        well_formed(modified),
        same_but_names(original, modified),
    ensures
        spec_snapshot(original).len() == spec_snapshot(modified).len(),
        names_of(original).len() == spec_snapshot(original).len(),
        names_of(modified).len() == spec_snapshot(original).len(),
        forall|j: int|
            0 <= j < spec_snapshot(original).len() ==> (#[trigger] spec_snapshot(modified)[j]).id
                == spec_snapshot(original)[j].id && spec_snapshot(modified)[j].is_dir
                == spec_snapshot(original)[j].is_dir,
        forall|j: int|
            0 < j < spec_snapshot(original).len() ==> spec_base_name(
                (#[trigger] spec_snapshot(original)[j]).path,
            ) == names_of(original)[j],
        forall|j: int|
            0 < j < spec_snapshot(original).len() ==> spec_base_name(
                (#[trigger] spec_snapshot(modified)[j]).path,
            ) == names_of(modified)[j],
{
    let none = Seq::<char>::empty();
    let n = original.children@.len();
    lemma_children_alongside(original.children@, modified.children@, none, none, n);
    let ca = flatten_children(original.children@, none, n);
    let cb = flatten_children(modified.children@, none, n);
    let o = spec_snapshot(original);
    let m = spec_snapshot(modified);
    let ka = names_of_all(original.children@, n);
    let kb = names_of_all(modified.children@, n);
    assert(o.len() == ca.len() + 1 && m.len() == cb.len() + 1);
    assert(names_of(original).len() == ka.len() + 1 && names_of(modified).len() == kb.len() + 1);
    assert forall|j: int| 0 <= j < o.len() implies (#[trigger] m[j]).id == o[j].id && m[j].is_dir
        == o[j].is_dir by {
        if j > 0 {
            assert(o[j] == ca[j - 1] && m[j] == cb[j - 1]);
        }
    }
    assert forall|j: int| 0 < j < o.len() implies spec_base_name((#[trigger] o[j]).path)
        == names_of(original)[j] by {
        assert(o[j] == ca[j - 1]);
        assert(names_of(original)[j] == ka[j - 1]);
    }
    assert forall|j: int| 0 < j < o.len() implies spec_base_name((#[trigger] m[j]).path)
        == names_of(modified)[j] by {
        assert(m[j] == cb[j - 1]);
        assert(names_of(modified)[j] == kb[j - 1]);
    }
}

/// In the snapshots of two well-formed trees that are the same but for their names,
/// every entity below the root lies in a directory that stands at the same earlier
/// position in both.
pub proof fn lemma_snapshots_held_alike(original: TreeNode, modified: TreeNode, j: int)
    requires
        well_formed(original),
        well_formed(modified),
        same_but_names(original, modified),
        0 < j < spec_snapshot(original).len(),
    ensures
        held_alike(spec_snapshot(original), spec_snapshot(modified), j),
{
    let none = Seq::<char>::empty();
    let n = original.children@.len();
    lemma_children_alongside(original.children@, modified.children@, none, none, n);
    let ca = flatten_children(original.children@, none, n);
    let cb = flatten_children(modified.children@, none, n);
    let o = spec_snapshot(original);
    let m = spec_snapshot(modified);
    assert(o[j] == ca[j - 1] && m[j] == cb[j - 1]);
    if spec_dir_of(ca[j - 1].path) == none && spec_dir_of(cb[j - 1].path) == none {
        assert(o[0].path == none && m[0].path == none);
    } else {
        let p = choose|p: int|
            0 <= p < j - 1 && (#[trigger] ca[p]).path == spec_dir_of(ca[j - 1].path) && cb[p].path
                == spec_dir_of(cb[j - 1].path);
        assert(o[p + 1] == ca[p] && m[p + 1] == cb[p]);
    }
}

/// Whether the names of the trees `original` and `modified`, listed in pre-order, differ
/// at position `k` and nowhere else below the root.
pub open spec fn renamed_only_at(original: TreeNode, modified: TreeNode, k: int) -> bool {
    &&& 0 < k < names_of(original).len()
    &&& names_of(original).len() == names_of(modified).len()
    &&& forall|j: int|
        0 < j < names_of(original).len() ==> ((#[trigger] names_of(original)[j]) == names_of(
            modified,
        )[j] <==> j != k)
}

/// The snapshots of two well-formed trees that are the same but for the name of the
/// entity at `k` are the same but for that name, too.
pub proof fn lemma_snapshots_renamed(original: TreeNode, modified: TreeNode, k: int)
    requires
        well_formed(original),
        well_formed(modified),
        same_but_names(original, modified),
        renamed_only_at(original, modified, k),
    ensures
        renamed_at(spec_snapshot(original), spec_snapshot(modified), k),
{
    let o = spec_snapshot(original);
    let m = spec_snapshot(modified);
    lemma_snapshots_alike(original, modified);
    assert forall|j: int| 0 < j < o.len() implies (spec_base_name((#[trigger] m[j]).path)
        == spec_base_name(o[j].path) <==> j != k) by {
        assert(spec_base_name(o[j].path) == names_of(original)[j]);
        assert(spec_base_name(m[j].path) == names_of(modified)[j]);
    }
    assert forall|j: int| 0 < j < o.len() implies #[trigger] held_alike(o, m, j) by {
        lemma_snapshots_held_alike(original, modified, j);
    }
}

/// For all well-formed trees: where the entity at position `k` below the root has a new
/// name and everything else is as it was, with every identity kept, reconciliation
/// yields exactly one operation, the rename of that entity from its old place to its new
/// one, whether it is a file or a directory and whatever it holds. Left out is a rename
/// that starts or ends in a place that belongs to the keeping of backups; no such
/// operation is handed out.
pub proof fn lemma_rename_in_tree(root: Seq<char>, original: TreeNode, modified: TreeNode, k: int)
    requires
        well_formed(original),
        well_formed(modified),
        same_but_names(original, modified),
        renamed_only_at(original, modified, k),
        all_identified(spec_snapshot(original)),
        unique_ids(spec_snapshot(original)),
        spec_snapshot(original).len() <= usize::MAX,
        !crate::plan::touches_reserved(
            root,
            OpView::Rename {
                from: spec_absolute(root, spec_snapshot(original)[k].path),
                to: spec_absolute(root, spec_snapshot(modified)[k].path),
            },
        ),
    ensures
        crate::reconcile::spec_reconcile(root, original, modified) == Ok::<
            Seq<OpView>,
            crate::error::AppErrorView,
        >(
            seq![
                OpView::Rename {
                    from: spec_absolute(root, spec_snapshot(original)[k].path),
                    to: spec_absolute(root, spec_snapshot(modified)[k].path),
                },
            ],
        ),
{
    let o = spec_snapshot(original);
    let m = spec_snapshot(modified);
    lemma_snapshots_renamed(original, modified, k);
    lemma_single_rename(root, o, m, k);
    let plan = seq![
        OpView::Rename { from: spec_absolute(root, o[k].path), to: spec_absolute(root, m[k].path) },
    ];
    crate::plan::lemma_shielded_all(root, plan, 1);
    assert(plan.take(1) =~= plan);
    assert(crate::entity::some_identified(m)) by {
        assert(m[0].id == o[0].id);
        assert(o[0].id.len() > 0);
    }
    assert(crate::entity::unique_known_ids(m)) by {
        assert forall|i: int, j: int|
            0 <= i < j < m.len() && (#[trigger] m[i]).id.len() > 0 implies m[i].id != (
            #[trigger] m[j]).id by {
            assert(m[i].id == o[i].id && m[j].id == o[j].id);
        }
    }
}

} // verus!
