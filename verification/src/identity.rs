//! Identities that occur once.
//!
//! A new identity is drawn at random. Before it is given to an entity it is held against
//! every identity that is already in use, and where it is among them it is made longer
//! than all of them, so that it differs from each.

use vstd::prelude::*;
use crate::entity::{flatten_children, spec_flatten, spec_snapshot, EntityView};
use crate::outside::fresh_identity;
use crate::text::concat2;
use crate::tree::TreeNode;

verus! {

/// The views of a sequence of strings.
pub open spec fn strings_view(strings: Seq<String>) -> Seq<Seq<char>> {
    strings.map_values(|s: String| s@)
}

/// Whether no two of `ids` are equal.
pub open spec fn all_different(ids: Seq<Seq<char>>) -> bool {
    forall|i: int, j: int| 0 <= i < j < ids.len() ==> #[trigger] ids[i] != #[trigger] ids[j]
}

/// Whether no identity occurs twice among `ids`. Empty entries stand for no identity and
/// do not count.
pub open spec fn known_different(ids: Seq<Seq<char>>) -> bool {
    forall|i: int, j: int|
        0 <= i < j < ids.len() && (#[trigger] ids[i]).len() > 0 ==> ids[i] != #[trigger] ids[j]
}

/// Whether `id` is among `given`.
pub fn is_among(given: &Vec<String>, id: &String) -> (r: bool)
    ensures
        r == strings_view(given@).contains(id@),
{
    let ghost views = strings_view(given@);
    let mut i: usize = 0;
    while i < given.len()
        invariant
            i <= given.len(),
            views == strings_view(given@),
            forall|k: int| 0 <= k < i ==> views[k] != id@,
        decreases given.len() - i,
    {
        if given[i] == *id {
            assert(views[i as int] == id@);
            return true;
        }
        i = i + 1;
    }
    false
}

/// Makes of the drawn identity `drawn` one that is not among `given`: `drawn` itself
/// where it is not among them, and otherwise the longest of them followed by `drawn`.
pub fn settle_identity(given: &Vec<String>, drawn: String) -> (id: String)
    requires
        drawn@.len() > 0,
    ensures
        id@.len() > 0,
        !strings_view(given@).contains(id@),
{
    if !is_among(given, &drawn) {
        return drawn;
    }
    let ghost views = strings_view(given@);
    let mut longest: usize = 0;
    let mut length: usize = 0;
    let mut i: usize = 0;
    while i < given.len()
        invariant
            i <= given.len(),
            views == strings_view(given@),
            longest < given.len() || i == 0,
            i > 0 ==> length == views[longest as int].len(),
            forall|k: int| 0 <= k < i ==> (#[trigger] views[k]).len() <= length,
        decreases given.len() - i,
    {
        let n = given[i].as_str().unicode_len();
        assert(views[i as int] == given@[i as int]@);
        if i == 0 || n > length {
            longest = i;
            length = n;
        }
        i = i + 1;
    }
    let id = concat2(given[longest].as_str(), drawn.as_str());
    assert(views[longest as int] == given@[longest as int]@);
    assert forall|k: int| 0 <= k < views.len() implies views[k] != id@ by {
        assert(views[k].len() <= length);
    }
    id
}

/// A new identity that is not among `given`.
pub fn draw_identity(given: &Vec<String>) -> (id: String)
    ensures
        id@.len() > 0,
        !strings_view(given@).contains(id@),
{
    settle_identity(given, fresh_identity())
}

/// Fills the gaps of `ids`: an entry that is not empty stays, an empty entry becomes a new
/// identity that differs from every entry of `ids` and from every other new one. Where no
/// identity occurs twice in `ids`, none occurs twice in the result.
pub fn fill_identities(ids: &Vec<String>) -> (out: Vec<String>)
    ensures
        out.len() == ids.len(),
        forall|k: int|
            0 <= k < ids.len() ==> (#[trigger] strings_view(out@)[k]).len() > 0 && (strings_view(
                ids@,
            )[k].len() > 0 ==> strings_view(out@)[k] == strings_view(ids@)[k]),
        known_different(strings_view(ids@)) ==> all_different(strings_view(out@)),
{
    let ghost idv = strings_view(ids@);
    let mut pool: Vec<String> = Vec::new();
    let mut c: usize = 0;
    while c < ids.len()
        invariant
            c <= ids.len(),
            pool.len() == c,
            idv == strings_view(ids@),
            forall|k: int| 0 <= k < c ==> (#[trigger] strings_view(pool@)[k]) == idv[k],
        decreases ids.len() - c,
    {
        let ghost before = strings_view(pool@);
        pool.push(ids[c].clone());
        assert(idv[c as int] == ids@[c as int]@);
        assert(strings_view(pool@) =~= before.push(idv[c as int]));
        c = c + 1;
    }
    let mut out: Vec<String> = Vec::new();
    let mut i: usize = 0;
    while i < ids.len()
        invariant
            i <= ids.len(),
            out.len() == i,
            idv == strings_view(ids@),
            pool.len() >= ids.len(),
            forall|k: int| 0 <= k < ids.len() ==> (#[trigger] strings_view(pool@)[k]) == idv[k],
            forall|a: int|
                0 <= a < i ==> strings_view(pool@).contains(#[trigger] strings_view(out@)[a]),
            forall|a: int|
                0 <= a < i ==> (#[trigger] strings_view(out@)[a]).len() > 0 && (idv[a].len() > 0
                    ==> strings_view(out@)[a] == idv[a]),
            forall|a: int, j: int|
                0 <= a < i && idv[a].len() == 0 && 0 <= j < ids.len() ==> (#[trigger] strings_view(
                    out@,
                )[a]) != (#[trigger] idv[j]),
            known_different(idv) ==> forall|a: int, b: int|
                0 <= a < b < i ==> (#[trigger] strings_view(out@)[a]) != (#[trigger] strings_view(
                    out@,
                )[b]),
        decreases ids.len() - i,
    {
        let ghost pv = strings_view(pool@);
        let ghost ov = strings_view(out@);
        assert(idv[i as int] == ids@[i as int]@);
        if ids[i].as_str().unicode_len() > 0 {
            let kept = ids[i].clone();
            out.push(kept);
            assert(strings_view(out@) =~= ov.push(idv[i as int]));
            assert(pv[i as int] == idv[i as int]);
            assert(pv.contains(idv[i as int]));
        } else {
            let new = draw_identity(&pool);
            out.push(new.clone());
            pool.push(new);
            let ghost id = strings_view(out@)[i as int];
            assert(strings_view(out@) =~= ov.push(id));
            assert(strings_view(pool@) =~= pv.push(id));
            assert(strings_view(pool@)[pv.len() as int] == id);
            assert forall|a: int| 0 <= a < i + 1 implies strings_view(pool@).contains(
                #[trigger] strings_view(out@)[a],
            ) by {
                if a < i {
                    let p = choose|p: int| 0 <= p < pv.len() && pv[p] == ov[a];
                    assert(strings_view(pool@)[p] == ov[a]);
                }
            }
            assert forall|j: int| 0 <= j < ids.len() implies id != idv[j] by {
                assert(pv[j] == idv[j]);
            }
        }
        i = i + 1;
    }
    out
}

/// The identities of the entities of the tree at `node`, in pre-order.
pub open spec fn ids_of(node: TreeNode) -> Seq<Seq<char>>
    decreases node, 0nat,
{
    seq![node.id@] + ids_of_all(node.children@, node.children@.len())
}

/// The identities of the entities of the first `n` trees of `nodes`, in pre-order.
pub open spec fn ids_of_all(nodes: Seq<TreeNode>, n: nat) -> Seq<Seq<char>>
    decreases nodes, n,
{
    if n == 0 || n > nodes.len() {
        Seq::empty()
    } else {
        ids_of_all(nodes, (n - 1) as nat) + ids_of(nodes[n - 1])
    }
}

/// The identities of a flat listing, one by one.
pub open spec fn ids_listed(entities: Seq<EntityView>) -> Seq<Seq<char>> {
    entities.map_values(|e: EntityView| e.id)
}

/// The flat listing of a subtree carries the identities of the subtree, in the same
/// order, wherever the subtree lies.
pub proof fn lemma_flatten_ids(node: TreeNode, parent: Seq<char>)
    ensures
        ids_listed(spec_flatten(node, parent)) == ids_of(node),
    decreases node, 1nat,
{
    let top = crate::text::spec_join(parent, node.name@);
    lemma_flatten_children_ids(node.children@, top, node.children@.len());
    assert(ids_listed(spec_flatten(node, parent)) =~= ids_of(node));
}

/// The flat listing of the children of a directory carries their identities, in the same
/// order.
pub proof fn lemma_flatten_children_ids(nodes: Seq<TreeNode>, parent: Seq<char>, n: nat)
    ensures
        ids_listed(flatten_children(nodes, parent, n)) == ids_of_all(nodes, n),
    decreases nodes, n,
{
    if n == 0 || n > nodes.len() {
        assert(ids_listed(flatten_children(nodes, parent, n)) =~= ids_of_all(nodes, n));
    } else {
        lemma_flatten_children_ids(nodes, parent, (n - 1) as nat);
        lemma_flatten_ids(nodes[n - 1], parent);
        assert(ids_listed(flatten_children(nodes, parent, n)) =~= ids_of_all(nodes, n));
    }
}

/// The snapshot of a tree carries the identities of the tree, in pre-order.
pub proof fn lemma_snapshot_ids(root: TreeNode)
    ensures
        ids_listed(spec_snapshot(root)) == ids_of(root),
{
    lemma_flatten_children_ids(root.children@, Seq::empty(), root.children@.len());
    assert(ids_listed(spec_snapshot(root)) =~= ids_of(root));
}

/// Where the identities of a tree are all different and none is empty, every entity of
/// its snapshot carries an identity and no two share one.
pub proof fn lemma_snapshot_unique(root: TreeNode)
    requires
        all_different(ids_of(root)),
        forall|k: int| 0 <= k < ids_of(root).len() ==> (#[trigger] ids_of(root)[k]).len() > 0,
    ensures
        crate::entity::unique_ids(spec_snapshot(root)),
        crate::entity::all_identified(spec_snapshot(root)),
{
    lemma_snapshot_ids(root);
    let s = spec_snapshot(root);
    let ids = ids_of(root);
    assert forall|i: int| 0 <= i < s.len() implies (#[trigger] s[i]).id == ids[i] by {
        assert(ids_listed(s)[i] == s[i].id);
    }
    assert(ids_listed(s).len() == s.len());
}

/// Appends the identities of the tree at `node` to `out`, in pre-order.
pub fn collect_ids(node: &TreeNode, out: &mut Vec<String>)
    ensures
        strings_view(final(out)@) == strings_view(old(out)@) + ids_of(*node),
    decreases *node,
{
    let ghost before = strings_view(out@);
    out.push(node.id.clone());
    assert(strings_view(out@) =~= before.push(node.id@));
    let mut i: usize = 0;
    while i < node.children.len()
        invariant
            i <= node.children.len(),
            strings_view(out@) == before + seq![node.id@] + ids_of_all(
                node.children@,
                i as nat,
            ),
        decreases node.children.len() - i,
    {
        collect_ids(&node.children[i], out);
        i = i + 1;
    }
}

/// Whether the trees `a` and `b` are the same but for their identities: name, kind and
/// children, all the way down.
pub open spec fn same_but_ids(a: TreeNode, b: TreeNode) -> bool
    decreases a, 0nat,
{
    &&& a.name@ == b.name@
    &&& a.is_dir == b.is_dir
    &&& a.children@.len() == b.children@.len()
    &&& same_but_ids_all(a.children@, b.children@, a.children@.len())
}

/// Whether the first `n` trees of `a` and of `b` are the same but for their identities.
pub open spec fn same_but_ids_all(a: Seq<TreeNode>, b: Seq<TreeNode>, n: nat) -> bool
    decreases a, n,
{
    if n == 0 || n > a.len() || n > b.len() {
        true
    } else {
        same_but_ids_all(a, b, (n - 1) as nat) && same_but_ids(a[n - 1], b[n - 1])
    }
}

/// Whether the first `n` trees of a list are the same as those of another but for their
/// identities depends on those trees alone.
proof fn lemma_same_but_ids_prefix(a: Seq<TreeNode>, b: Seq<TreeNode>, c: Seq<TreeNode>, n: nat)
    requires
        n <= b.len(),
        n <= c.len(),
        forall|i: int| 0 <= i < n ==> b[i] == c[i],
    ensures
        same_but_ids_all(a, b, n) == same_but_ids_all(a, c, n),
        ids_of_all(b, n) == ids_of_all(c, n),
    decreases n,
{
    if n > 0 {
        lemma_same_but_ids_prefix(a, b, c, (n - 1) as nat);
    }
}

/// The tree at `node` with the identities that `ids` holds from position `start` on, in
/// pre-order, together with the position behind the last identity used.
pub fn with_ids(node: &TreeNode, ids: &Vec<String>, start: usize) -> (r: (TreeNode, usize))
    requires
        start + ids_of(*node).len() <= ids.len(),
    ensures
        same_but_ids(*node, r.0),
        r.1 == start + ids_of(*node).len(),
        ids_of(r.0) == strings_view(ids@).subrange(start as int, r.1 as int),
    decreases *node,
{
    let ghost idv = strings_view(ids@);
    let id = ids[start].clone();
    assert(idv[start as int] == ids@[start as int]@);
    let mut children: Vec<TreeNode> = Vec::new();
    let mut next: usize = start + 1;
    let mut i: usize = 0;
    assert(idv.subrange(start + 1, start + 1) =~= Seq::<Seq<char>>::empty());
    while i < node.children.len()
        invariant
            i <= node.children.len(),
            children.len() == i,
            idv == strings_view(ids@),
            start + ids_of(*node).len() <= ids.len(),
            next == start + 1 + ids_of_all(node.children@, i as nat).len(),
            same_but_ids_all(node.children@, children@, i as nat),
            ids_of_all(children@, i as nat) == idv.subrange(start + 1, next as int),
        decreases node.children.len() - i,
    {
        proof {
            lemma_ids_grow(node.children@, (i + 1) as nat, node.children@.len());
        }
        let (child, after) = with_ids(&node.children[i], ids, next);
        proof {
            lemma_same_but_ids_prefix(node.children@, children@.push(child), children@, i as nat);
            assert(idv.subrange(start + 1, after as int) =~= idv.subrange(start + 1, next as int)
                + idv.subrange(next as int, after as int));
        }
        children.push(child);
        next = after;
        i = i + 1;
    }
    let out = TreeNode { id, name: node.name.clone(), is_dir: node.is_dir, children };
    assert(ids_of(out) =~= idv.subrange(start as int, next as int));
    (out, next)
}

/// The first `m` of a list of trees have no more identities than the first `n`, for
/// `m <= n`.
proof fn lemma_ids_grow(nodes: Seq<TreeNode>, m: nat, n: nat)
    requires
        m <= n <= nodes.len(),
    ensures
        ids_of_all(nodes, m).len() <= ids_of_all(nodes, n).len(),
    decreases n,
{
    if m < n {
        lemma_ids_grow(nodes, m, (n - 1) as nat);
    }
}

/// Gives every entity of the tree at `node` that has no identity a new one. The tree
/// stays as it is but for that: every identity it has is kept. Every entity of the
/// result carries an identity, and where no identity occurs twice in the tree, none
/// occurs twice in the result.
pub fn assign_identities(node: &TreeNode) -> (out: TreeNode)
    ensures
        same_but_ids(*node, out),
        ids_of(out).len() == ids_of(*node).len(),
        forall|k: int|
            0 <= k < ids_of(*node).len() ==> (#[trigger] ids_of(out)[k]).len() > 0 && (ids_of(
                *node,
            )[k].len() > 0 ==> ids_of(out)[k] == ids_of(*node)[k]),
        known_different(ids_of(*node)) ==> all_different(ids_of(out)),
        known_different(ids_of(*node)) ==> crate::entity::unique_ids(spec_snapshot(out))
            && crate::entity::all_identified(spec_snapshot(out)),
{
    let mut ids: Vec<String> = Vec::new();
    assert(strings_view(ids@) =~= Seq::<Seq<char>>::empty());
    collect_ids(node, &mut ids);
    assert(strings_view(ids@) =~= ids_of(*node));
    let filled = fill_identities(&ids);
    let (out, end) = with_ids(node, &filled, 0);
    assert(strings_view(filled@).subrange(0, end as int) =~= strings_view(filled@));
    proof {
        if known_different(ids_of(*node)) {
            lemma_snapshot_unique(out);
        }
    }
    out
}

/// Gives every entity of the tree at `node` a new identity, whatever it had. The tree
/// stays as it is but for that. Every entity of the result carries an identity and no two
/// share one.
pub fn renew_identities(node: &TreeNode) -> (out: TreeNode)
    ensures
        same_but_ids(*node, out),
        all_different(ids_of(out)),
        crate::entity::unique_ids(spec_snapshot(out)),
        crate::entity::all_identified(spec_snapshot(out)),
{
    let mut ids: Vec<String> = Vec::new();
    assert(strings_view(ids@) =~= Seq::<Seq<char>>::empty());
    collect_ids(node, &mut ids);
    assert(strings_view(ids@) =~= ids_of(*node));
    let mut blanks: Vec<String> = Vec::new();
    let mut i: usize = 0;
    while i < ids.len()
        invariant
            i <= ids.len(),
            blanks.len() == i,
            forall|k: int| 0 <= k < i ==> (#[trigger] strings_view(blanks@)[k]).len() == 0,
        decreases ids.len() - i,
    {
        let ghost before = strings_view(blanks@);
        blanks.push(String::new());
        assert(strings_view(blanks@) =~= before.push(Seq::<char>::empty()));
        i = i + 1;
    }
    let filled = fill_identities(&blanks);
    let (out, end) = with_ids(node, &filled, 0);
    assert(strings_view(filled@).subrange(0, end as int) =~= strings_view(filled@));
    proof {
        lemma_snapshot_unique(out);
    }
    out
}

} // verus!
