//! Laws of the trees built from raw listings.

use vstd::prelude::*;
use crate::scan::{
    built_children,
    built_node,
    comes_before,
    insert_position,
    insert_sorted,
    keeps,
    lemma_insert_position_bounds,
    name_less,
    name_less_from,
    OptionsView,
    Shape,
};
use crate::tree::TreeNode;

verus! {

/// No name comes before itself.
pub proof fn lemma_name_less_irreflexive(a: Seq<char>, i: nat)
    ensures
        !name_less_from(a, a, i),
    decreases a.len() - i,
{
    if i < a.len() {
        lemma_name_less_irreflexive(a, i + 1);
    }
}

/// A name that comes before a second one comes before every name that the second one
/// comes before.
pub proof fn lemma_name_less_transitive(a: Seq<char>, b: Seq<char>, c: Seq<char>, i: nat)
    requires
        name_less_from(a, b, i),
        name_less_from(b, c, i),
    ensures
        name_less_from(a, c, i),
    decreases c.len() - i,
{
    if i < a.len() && i < b.len() && i < c.len() && a[i as int] == b[i as int] && b[i as int]
        == c[i as int] {
        lemma_name_less_transitive(a, b, c, i + 1);
    }
}

/// No two names come before each other.
pub proof fn lemma_name_less_asymmetric(a: Seq<char>, b: Seq<char>, i: nat)
    requires
        name_less_from(a, b, i),
    ensures
        !name_less_from(b, a, i),
    decreases a.len() - i,
{
    if i < a.len() && i < b.len() && a[i as int] == b[i as int] {
        lemma_name_less_asymmetric(a, b, i + 1);
    }
}

/// The order of the children of a directory is strict: no entity comes before itself, no
/// two come before each other, and what comes before an entity comes before everything
/// that the entity comes before.
pub proof fn lemma_comes_before_strict(a: Shape, b: Shape, c: Shape)
    ensures
        !comes_before(a, a),
        comes_before(a, b) ==> !comes_before(b, a),
        comes_before(a, b) && comes_before(b, c) ==> comes_before(a, c),
{
    lemma_name_less_irreflexive(a.name, 0);
    if comes_before(a, b) && a.is_dir == b.is_dir {
        lemma_name_less_asymmetric(a.name, b.name, 0);
    }
    if comes_before(a, b) && comes_before(b, c) && a.is_dir == b.is_dir && b.is_dir == c.is_dir {
        lemma_name_less_transitive(a.name, b.name, c.name, 0);
    }
}

/// Whether `shapes` is in order: no entity comes before one that stands earlier.
pub open spec fn in_order(shapes: Seq<Shape>) -> bool {
    forall|p: int, q: int|
        0 <= p < q < shapes.len() ==> !comes_before(#[trigger] shapes[q], #[trigger] shapes[p])
}

/// Where `x` is put into a list, everything before it is something that it does not come
/// before, and it comes before what follows it directly.
pub proof fn lemma_insert_position(sorted: Seq<Shape>, x: Shape, from: nat)
    requires
        from <= sorted.len(),
    ensures
        forall|k: int|
            from <= k < insert_position(sorted, x, from) ==> !comes_before(
                x,
                #[trigger] sorted[k],
            ),
        insert_position(sorted, x, from) < sorted.len() ==> comes_before(
            x,
            sorted[insert_position(sorted, x, from) as int],
        ),
    decreases sorted.len() - from,
{
    if from < sorted.len() && !comes_before(x, sorted[from as int]) {
        lemma_insert_position(sorted, x, from + 1);
    }
}

/// A list in order stays in order when an entity is put in its place, and holds what it
/// held and the entity.
pub proof fn lemma_insert_sorted(sorted: Seq<Shape>, x: Shape)
    requires
        in_order(sorted),
    ensures
        in_order(insert_sorted(sorted, x)),
        insert_sorted(sorted, x).to_multiset() == sorted.to_multiset().insert(x),
        insert_sorted(sorted, x).len() == sorted.len() + 1,
{
    let at = insert_position(sorted, x, 0) as int;
    lemma_insert_position_bounds(sorted, x, 0);
    lemma_insert_position(sorted, x, 0);
    let after = sorted.insert(at, x);
    assert forall|p: int, q: int| 0 <= p < q < after.len() implies !comes_before(
        #[trigger] after[q],
        #[trigger] after[p],
    ) by {
        if q < at {
            assert(after[p] == sorted[p] && after[q] == sorted[q]);
        } else if q == at {
            assert(after[p] == sorted[p]);
        } else if p == at {
            assert(after[q] == sorted[q - 1]);
            lemma_comes_before_strict(x, sorted[at], sorted[q - 1]);
            lemma_comes_before_strict(sorted[q - 1], x, sorted[at]);
            if q - 1 > at {
                assert(!comes_before(sorted[q - 1], sorted[at]));
            }
        } else if p < at {
            assert(after[p] == sorted[p] && after[q] == sorted[q - 1]);
        } else {
            assert(after[p] == sorted[p - 1] && after[q] == sorted[q - 1]);
        }
    }
    vstd::seq_lib::to_multiset_insert(sorted, at, x);
}

/// The shapes of those of the first `n` raw entries that belong to the snapshot, in the
/// order of the raw listing.
pub open spec fn kept_children(
    children: Seq<TreeNode>,
    options: OptionsView,
    depth: nat,
    n: nat,
) -> Seq<Shape>
    decreases n,
{
    if n == 0 || n > children.len() {
        Seq::empty()
    } else {
        let before = kept_children(children, options, depth, (n - 1) as nat);
        let child = children[n - 1];
        if keeps(options.show_hidden, options.exclude_pattern, child.name@) {
            before.push(built_node(child, options, depth, child.is_dir))
        } else {
            before
        }
    }
}

/// The children of a directory of a snapshot are in order, directories before files and
/// each group by name, and they are the entries of the raw listing that belong to the
/// snapshot, each once for every time it is listed.
pub proof fn lemma_built_children(
    children: Seq<TreeNode>,
    options: OptionsView,
    depth: nat,
    n: nat,
)
    requires
        n <= children.len(),
    ensures
        in_order(built_children(children, options, depth, n)),
        built_children(children, options, depth, n).to_multiset() == kept_children(
            children,
            options,
            depth,
            n,
        ).to_multiset(),
    decreases n,
{
    if n > 0 {
        let before = built_children(children, options, depth, (n - 1) as nat);
        lemma_built_children(children, options, depth, (n - 1) as nat);
        let child = children[n - 1];
        if keeps(options.show_hidden, options.exclude_pattern, child.name@) {
            let x = built_node(child, options, depth, child.is_dir);
            lemma_insert_sorted(before, x);
            vstd::seq_lib::to_multiset_build(
                kept_children(children, options, depth, (n - 1) as nat),
                x,
            );
        }
    }
}

/// Among the children of a directory of a snapshot no file stands before a directory, and
/// of two entities of a kind the one with the smaller name stands first.
pub proof fn lemma_directories_first(
    children: Seq<TreeNode>,
    options: OptionsView,
    depth: nat,
    p: int,
    q: int,
)
    requires
        0 <= p < q < built_children(children, options, depth, children.len()).len(),
    ensures
        ({
            let built = built_children(children, options, depth, children.len());
            &&& built[q].is_dir ==> built[p].is_dir
            &&& built[p].is_dir == built[q].is_dir ==> !name_less(built[q].name, built[p].name)
        }),
{
    lemma_built_children(children, options, depth, children.len());
    let built = built_children(children, options, depth, children.len());
    assert(!comes_before(built[q], built[p]));
}

/// Every child of a directory of a snapshot bears a name that belongs to the snapshot: it
/// is hidden only where hidden entries are asked for, and the pattern of exclusion does
/// not match it.
pub proof fn lemma_built_names_belong(
    children: Seq<TreeNode>,
    options: OptionsView,
    depth: nat,
    n: nat,
)
    requires
        n <= children.len(),
    ensures
        forall|p: int|
            0 <= p < built_children(children, options, depth, n).len() ==> keeps(
                options.show_hidden,
                options.exclude_pattern,
                (#[trigger] built_children(children, options, depth, n)[p]).name,
            ),
    decreases n,
{
    if n > 0 {
        let before = built_children(children, options, depth, (n - 1) as nat);
        lemma_built_names_belong(children, options, depth, (n - 1) as nat);
        let child = children[n - 1];
        if keeps(options.show_hidden, options.exclude_pattern, child.name@) {
            let x = built_node(child, options, depth, child.is_dir);
            let at = insert_position(before, x, 0) as int;
            lemma_insert_position_bounds(before, x, 0);
            let after = before.insert(at, x);
            assert forall|p: int| 0 <= p < after.len() implies keeps(
                options.show_hidden,
                options.exclude_pattern,
                (#[trigger] after[p]).name,
            ) by {
                if p < at {
                    assert(after[p] == before[p]);
                } else if p > at {
                    assert(after[p] == before[p - 1]);
                }
            }
        }
    }
}

/// Whether one of the first `n` of `children` is called `name`.
pub open spec fn named_among(children: Seq<TreeNode>, n: nat, name: Seq<char>) -> bool {
    exists|k: int| 0 <= k < n && (#[trigger] children[k]).name@ == name
}

/// Whether no two of `shapes` bear the same name.
pub open spec fn distinct_shape_names(shapes: Seq<Shape>) -> bool {
    forall|p: int, q: int|
        0 <= p < q < shapes.len() ==> (#[trigger] shapes[p]).name != (#[trigger] shapes[q]).name
}

/// Where no two entries of a raw listing bear the same name, no two children of the
/// directory built from it do: sibling names stay distinct.
pub proof fn lemma_built_names_distinct(
    children: Seq<TreeNode>,
    options: OptionsView,
    depth: nat,
    n: nat,
)
    requires
        n <= children.len(),
        crate::tree::distinct_names(children),
    ensures
        distinct_shape_names(built_children(children, options, depth, n)),
        forall|p: int|
            0 <= p < built_children(children, options, depth, n).len() ==> named_among(
                children,
                n,
                (#[trigger] built_children(children, options, depth, n)[p]).name,
            ),
    decreases n,
{
    if n > 0 {
        let before = built_children(children, options, depth, (n - 1) as nat);
        lemma_built_names_distinct(children, options, depth, (n - 1) as nat);
        let child = children[n - 1];
        assert forall|p: int| 0 <= p < before.len() implies named_among(
            children,
            n,
            (#[trigger] before[p]).name,
        ) && before[p].name != child.name@ by {
            assert(named_among(children, (n - 1) as nat, before[p].name));
            let k = choose|k: int| 0 <= k < n - 1 && (#[trigger] children[k]).name@ == before[p].name;
            assert(children[k].name@ != children[n - 1].name@);
        }
        if keeps(options.show_hidden, options.exclude_pattern, child.name@) {
            let x = built_node(child, options, depth, child.is_dir);
            let at = insert_position(before, x, 0) as int;
            lemma_insert_position_bounds(before, x, 0);
            let after = before.insert(at, x);
            assert(x.name == child.name@);
            assert forall|p: int| 0 <= p < after.len() implies named_among(
                children,
                n,
                (#[trigger] after[p]).name,
            ) by {
                if p < at {
                    assert(after[p] == before[p]);
                } else if p > at {
                    assert(after[p] == before[p - 1]);
                } else {
                    assert(children[n - 1].name@ == x.name);
                }
            }
            assert forall|p: int, q: int| 0 <= p < q < after.len() implies (#[trigger] after[p]).name
                != (#[trigger] after[q]).name by {
                let ip = if p < at { p } else { p - 1 };
                let iq = if q < at { q } else { q - 1 };
                if p != at && q != at {
                    assert(after[p] == before[ip] && after[q] == before[iq]);
                } else if p == at {
                    assert(after[q] == before[iq]);
                } else {
                    assert(after[p] == before[ip]);
                }
            }
        }
    }
}

} // verus!
