//! From the raw listing of a directory to the tree of a snapshot.
//!
//! The caller reads the directory and hands over what it found as a tree of names and
//! kinds. The library decides what of it belongs to the snapshot, puts the children of
//! every directory in order, directories before files and each group by name, cuts the
//! tree at the greatest depth asked for, and gives every entity a new identity.

use vstd::prelude::*;
use crate::outside::{pattern_matches, spec_pattern_match, spec_pattern_valid};
use crate::text::{chars_of, concat2};
use crate::tree::TreeNode;

verus! {

/// What to take into a snapshot.
#[derive(Debug, PartialEq, Eq)]
pub struct DirectoryOptions {
    /// How many levels below the root are listed.
    pub max_depth: usize,
    /// A regular expression; an entry whose name it matches is left out.
    pub exclude_pattern: String,
    /// Whether a link to a directory is listed as that directory.
    pub follow_symlinks: bool,
    /// Whether entries whose name begins with a dot are listed.
    pub show_hidden: bool,
}

impl Default for DirectoryOptions {
    /// Ten levels, without `node_modules` and `.git`, without following links, without
    /// hidden entries.
    fn default() -> (o: Self)
        ensures
            o.max_depth == 10,
            o.exclude_pattern@ == "node_modules|.git"@,
            !o.follow_symlinks,
            !o.show_hidden,
    {
        DirectoryOptions {
            max_depth: 10,
            exclude_pattern: "node_modules|.git".to_owned(),
            follow_symlinks: false,
            show_hidden: false,
        }
    }
}

/// Whether `name` begins with a dot.
pub open spec fn is_hidden(name: Seq<char>) -> bool {
    name.len() > 0 && name[0] == '.'
}

/// Whether an entry belongs to the snapshot, given its name, whether hidden entries are
/// asked for, and whether the pattern of exclusion matches the name: it is not hidden,
/// unless hidden entries are asked for, and the pattern does not match.
pub open spec fn belongs(show_hidden: bool, name: Seq<char>, excluded: bool) -> bool {
    (show_hidden || !is_hidden(name)) && !excluded
}

/// Whether an entry called `name` belongs to the snapshot: it is not hidden, unless
/// hidden entries are asked for, and the pattern of exclusion does not match its name.
pub open spec fn keeps(show_hidden: bool, pattern: Seq<char>, name: Seq<char>) -> bool {
    belongs(show_hidden, name, spec_pattern_match(pattern, name))
}

/// Whether an entry called `name` belongs to the snapshot, where `excluded` says whether
/// the pattern of exclusion matches the name.
pub fn entry_belongs(show_hidden: bool, name: &str, excluded: bool) -> (r: bool)
    ensures
        r == belongs(show_hidden, name@, excluded),
{
    if excluded {
        return false;
    }
    if show_hidden {
        return true;
    }
    let v = chars_of(name);
    !(v.len() > 0 && v[0] == '.')
}

/// Whether an entry called `name` belongs to the snapshot that `options` describe.
fn keeps_entry(options: &DirectoryOptions, name: &str) -> (r: bool)
    requires
        spec_pattern_valid(options.exclude_pattern@),
    ensures
        r == keeps(options.show_hidden, options.exclude_pattern@, name@),
{
    match pattern_matches(options.exclude_pattern.as_str(), name) {
        Ok(excluded) => entry_belongs(options.show_hidden, name, excluded),
        Err(_) => true,
    }
}

/// Whether an entry called `name` belongs to the snapshot that `options` describe;
/// nothing where the pattern of exclusion is not a regular expression.
pub fn includes_entry(options: &DirectoryOptions, name: &str) -> (r: Option<bool>)
    ensures
        r is Some <==> spec_pattern_valid(options.exclude_pattern@),
        r matches Some(b) ==> b == keeps(options.show_hidden, options.exclude_pattern@, name@),
{
    match pattern_matches(options.exclude_pattern.as_str(), name) {
        Ok(excluded) => Some(entry_belongs(options.show_hidden, name, excluded)),
        Err(_) => None,
    }
}

/// Whether the entries of a directory `depth` levels below the root are listed.
pub fn descends(options: &DirectoryOptions, depth: usize) -> (r: bool)
    ensures
        r == (depth < options.max_depth),
{
    depth < options.max_depth
}

/// Whether the name `a` comes before the name `b`, character by character from position
/// `i` on, given that the two agree before it. A name comes before every name that
/// continues it.
pub open spec fn name_less_from(a: Seq<char>, b: Seq<char>, i: nat) -> bool
    decreases a.len() - i,
{
    if i >= b.len() {
        false
    } else if i >= a.len() {
        true
    } else if a[i as int] != b[i as int] {
        (a[i as int] as u32) < (b[i as int] as u32)
    } else {
        name_less_from(a, b, i + 1)
    }
}

/// Whether the name `a` comes before the name `b` in the order of the characters.
pub open spec fn name_less(a: Seq<char>, b: Seq<char>) -> bool {
    name_less_from(a, b, 0)
}

/// Whether the name `a` comes before the name `b`.
pub fn name_before(a: &str, b: &str) -> (r: bool)
    ensures
        r == name_less(a@, b@),
{
    let va = chars_of(a);
    let vb = chars_of(b);
    let mut i: usize = 0;
    while i < va.len() && i < vb.len()
        invariant
            i <= va.len(),
            i <= vb.len(),
            va@ == a@,
            vb@ == b@,
            name_less(a@, b@) == name_less_from(a@, b@, i as nat),
        decreases va.len() - i,
    {
        if va[i] != vb[i] {
            return (va[i] as u32) < (vb[i] as u32);
        }
        i = i + 1;
    }
    i < vb.len()
}

/// The name, the kind and the children of an entity, without its identity.
pub struct Shape {
    pub name: Seq<char>,
    pub is_dir: bool,
    pub children: Seq<Shape>,
}

/// The shape of the tree at `node`.
pub open spec fn shape_of(node: TreeNode) -> Shape
    decreases node, 0nat,
{
    Shape {
        name: node.name@,
        is_dir: node.is_dir,
        children: shapes_of(node.children@, node.children@.len()),
    }
}

/// The shapes of the first `n` of `nodes`.
pub open spec fn shapes_of(nodes: Seq<TreeNode>, n: nat) -> Seq<Shape>
    decreases nodes, n,
{
    if n == 0 || n > nodes.len() {
        Seq::empty()
    } else {
        shapes_of(nodes, (n - 1) as nat).push(shape_of(nodes[n - 1]))
    }
}

/// Whether the entity `a` comes before the entity `b` among the children of a directory:
/// a directory before a file, and of two of a kind the one whose name comes first.
pub open spec fn comes_before(a: Shape, b: Shape) -> bool {
    if a.is_dir != b.is_dir {
        a.is_dir
    } else {
        name_less(a.name, b.name)
    }
}

/// Where `x` goes into the ordered list `sorted`, looking from position `from` on: before
/// the first entity that it comes before, at the end where there is none.
pub open spec fn insert_position(sorted: Seq<Shape>, x: Shape, from: nat) -> nat
    decreases sorted.len() - from,
{
    if from < sorted.len() && !comes_before(x, sorted[from as int]) {
        insert_position(sorted, x, from + 1)
    } else {
        from
    }
}

/// The position lies within the list or at its end.
pub proof fn lemma_insert_position_bounds(sorted: Seq<Shape>, x: Shape, from: nat)
    requires
        from <= sorted.len(),
    ensures
        from <= insert_position(sorted, x, from) <= sorted.len(),
    decreases sorted.len() - from,
{
    if from < sorted.len() && !comes_before(x, sorted[from as int]) {
        lemma_insert_position_bounds(sorted, x, from + 1);
    }
}

/// The ordered list `sorted` with `x` put in its place.
pub open spec fn insert_sorted(sorted: Seq<Shape>, x: Shape) -> Seq<Shape> {
    sorted.insert(insert_position(sorted, x, 0) as int, x)
}

/// The view of what the options say about the content of a snapshot.
pub struct OptionsView {
    pub max_depth: nat,
    pub exclude_pattern: Seq<char>,
    pub show_hidden: bool,
}

impl DirectoryOptions {
    /// What the options say about the content of a snapshot.
    pub open spec fn content(&self) -> OptionsView {
        OptionsView {
            max_depth: self.max_depth as nat,
            exclude_pattern: self.exclude_pattern@,
            show_hidden: self.show_hidden,
        }
    }
}

/// The shape of the snapshot of the raw entry `raw`, which lies `depth` levels below the
/// root. A directory above the greatest depth has the entries that belong to the
/// snapshot, in order; a directory at the greatest depth, and a file, has none.
pub open spec fn built_node(raw: TreeNode, options: OptionsView, depth: nat, is_dir: bool) -> Shape
    decreases raw, 0nat,
{
    Shape {
        name: raw.name@,
        is_dir,
        children: if is_dir && depth < options.max_depth {
            built_children(raw.children@, options, depth + 1, raw.children@.len())
        } else {
            Seq::empty()
        },
    }
}

/// The shapes of those of the first `n` raw entries `children` that belong to the
/// snapshot, in order.
pub open spec fn built_children(
    children: Seq<TreeNode>,
    options: OptionsView,
    depth: nat,
    n: nat,
) -> Seq<Shape>
    decreases children, n,
{
    if n == 0 || n > children.len() {
        Seq::empty()
    } else {
        let before = built_children(children, options, depth, (n - 1) as nat);
        let child = children[n - 1];
        if keeps(options.show_hidden, options.exclude_pattern, child.name@) {
            insert_sorted(before, built_node(child, options, depth, child.is_dir))
        } else {
            before
        }
    }
}

/// The shapes of a list of trees are the shapes of its trees, one by one.
pub proof fn lemma_shapes(nodes: Seq<TreeNode>, n: nat)
    requires
        n <= nodes.len(),
    ensures
        shapes_of(nodes, n).len() == n,
        forall|i: int| 0 <= i < n ==> (#[trigger] shapes_of(nodes, n)[i]) == shape_of(nodes[i]),
    decreases n,
{
    if n > 0 {
        lemma_shapes(nodes, (n - 1) as nat);
    }
}

/// Putting a tree into a list puts its shape into the shapes of the list, at the same
/// place.
proof fn lemma_shapes_insert(nodes: Seq<TreeNode>, at: int, node: TreeNode)
    requires
        0 <= at <= nodes.len(),
    ensures
        shapes_of(nodes.insert(at, node), nodes.len() + 1) == shapes_of(nodes, nodes.len()).insert(
            at,
            shape_of(node),
        ),
{
    let after = nodes.insert(at, node);
    lemma_shapes(nodes, nodes.len());
    lemma_shapes(after, after.len());
    let expected = shapes_of(nodes, nodes.len()).insert(at, shape_of(node));
    assert forall|i: int| 0 <= i < after.len() implies shapes_of(after, after.len())[i]
        == expected[i] by {
        if i < at {
            assert(after[i] == nodes[i]);
        } else if i > at {
            assert(after[i] == nodes[i - 1]);
        }
    }
    assert(shapes_of(after, after.len()) =~= expected);
}

/// Builds the snapshot of the raw entry `raw`, `depth` levels below the root, as a
/// directory or a file, without identities.
fn build_node(raw: &TreeNode, options: &DirectoryOptions, depth: usize, is_dir: bool) -> (node:
    TreeNode)
    requires
        spec_pattern_valid(options.exclude_pattern@),
    ensures
        shape_of(node) == built_node(*raw, options.content(), depth as nat, is_dir),
    decreases *raw,
{
    let mut children: Vec<TreeNode> = Vec::new();
    if is_dir && depth < options.max_depth {
        let mut i: usize = 0;
        while i < raw.children.len()
            invariant
                i <= raw.children.len(),
                depth < options.max_depth,
                spec_pattern_valid(options.exclude_pattern@),
                shapes_of(children@, children@.len()) == built_children(
                    raw.children@,
                    options.content(),
                    depth as nat + 1,
                    i as nat,
                ),
            decreases raw.children.len() - i,
        {
            let entry = &raw.children[i];
            if keeps_entry(options, entry.name.as_str()) {
                let child = build_node(entry, options, depth + 1, entry.is_dir);
                let ghost sorted = shapes_of(children@, children@.len());
                proof {
                    lemma_shapes(children@, children@.len());
                }
                let mut at: usize = 0;
                while at < children.len() && !goes_before(&child, &children[at])
                    invariant
                        at <= children.len(),
                        sorted == shapes_of(children@, children@.len()),
                        sorted.len() == children@.len(),
                        forall|k: int|
                            0 <= k < children@.len() ==> (#[trigger] sorted[k]) == shape_of(
                                children@[k],
                            ),
                        insert_position(sorted, shape_of(child), 0) == insert_position(
                            sorted,
                            shape_of(child),
                            at as nat,
                        ),
                    decreases children.len() - at,
                {
                    at = at + 1;
                }
                proof {
                    lemma_shapes_insert(children@, at as int, child);
                }
                children.insert(at, child);
            }
            i = i + 1;
        }
    }
    TreeNode { id: String::new(), name: raw.name.clone(), is_dir, children }
}

/// Whether the entity `a` comes before the entity `b` among the children of a directory.
fn goes_before(a: &TreeNode, b: &TreeNode) -> (r: bool)
    ensures
        r == comes_before(shape_of(*a), shape_of(*b)),
{
    if a.is_dir != b.is_dir {
        a.is_dir
    } else {
        name_before(a.name.as_str(), b.name.as_str())
    }
}

/// The message with which a listing is rejected for its pattern of exclusion.
pub open spec fn is_pattern_rejection(message: Seq<char>) -> bool {
    message.len() >= "Invalid exclude pattern: "@.len() && message.subrange(
        0,
        "Invalid exclude pattern: "@.len() as int,
    ) == "Invalid exclude pattern: "@
}

/// Whether the raw listing at `raw` names no entry twice: in no directory of it do two
/// entries bear the same name.
pub open spec fn listable(raw: TreeNode) -> bool
    decreases raw, 0nat,
{
    crate::tree::distinct_names(raw.children@) && listable_all(
        raw.children@,
        raw.children@.len(),
    )
}

/// Whether the first `n` of `entries` name no entry twice.
pub open spec fn listable_all(entries: Seq<TreeNode>, n: nat) -> bool
    decreases entries, n,
{
    if n == 0 || n > entries.len() {
        true
    } else {
        listable_all(entries, (n - 1) as nat) && listable(entries[n - 1])
    }
}

/// If the first `n` entries name no entry twice, neither do the first `m` for `m <= n`.
proof fn lemma_listable_prefix(entries: Seq<TreeNode>, m: nat, n: nat)
    requires
        m <= n <= entries.len(),
        listable_all(entries, n),
    ensures
        listable_all(entries, m),
    decreases n,
{
    if m < n {
        lemma_listable_prefix(entries, m, (n - 1) as nat);
    }
}

/// Whether the raw listing at `raw` names no entry twice.
pub fn check_listable(raw: &TreeNode) -> (ok: bool)
    ensures
        ok == listable(*raw),
    decreases *raw,
{
    if !crate::tree::check_distinct_names(&raw.children) {
        return false;
    }
    let mut i: usize = 0;
    while i < raw.children.len()
        invariant
            i <= raw.children.len(),
            listable_all(raw.children@, i as nat),
        decreases raw.children.len() - i,
    {
        if !check_listable(&raw.children[i]) {
            proof {
                if listable_all(raw.children@, raw.children@.len()) {
                    lemma_listable_prefix(raw.children@, i as nat + 1, raw.children@.len());
                }
            }
            return false;
        }
        i = i + 1;
    }
    true
}

/// Two trees that are the same but for their identities have the same shape.
pub proof fn lemma_same_shape(a: TreeNode, b: TreeNode)
    requires
        crate::identity::same_but_ids(a, b),
    ensures
        shape_of(a) == shape_of(b),
    decreases a, 1nat,
{
    lemma_same_shapes(a.children@, b.children@, a.children@.len());
}

/// Two lists of trees that are the same but for their identities have the same shapes.
pub proof fn lemma_same_shapes(a: Seq<TreeNode>, b: Seq<TreeNode>, n: nat)
    requires
        n <= a.len(),
        n <= b.len(),
        crate::identity::same_but_ids_all(a, b, n),
    ensures
        shapes_of(a, n) == shapes_of(b, n),
    decreases a, n,
{
    if n > 0 {
        lemma_same_shapes(a, b, (n - 1) as nat);
        lemma_same_shape(a[n - 1], b[n - 1]);
    }
}

/// The message with which a listing is rejected that names an entry twice.
pub open spec fn listing_rejection() -> Seq<char> {
    "Invalid directory listing: two entries of one directory bear the same name"@
}

/// Builds the snapshot of the directory whose raw listing is `raw`, as `options`
/// describe it.
///
/// The root is a directory named as `raw` is. Below it stand the entries of `raw` that
/// belong to the snapshot, down to the greatest depth, the children of each directory in
/// order. Every entity has a new identity, and no two entities share one. The listing is
/// rejected, with a message that begins with `Invalid exclude pattern: `, where the
/// pattern of exclusion is not a regular expression, and otherwise where it names an
/// entry twice.
pub fn build_tree_with_options(raw: &TreeNode, options: &DirectoryOptions) -> (r: Result<
    TreeNode,
    String,
>)
    ensures
        r is Ok <==> spec_pattern_valid(options.exclude_pattern@) && listable(*raw),
        r matches Ok(tree) ==> shape_of(tree) == built_node(*raw, options.content(), 0, true)
            && crate::entity::all_identified(crate::entity::spec_snapshot(tree))
            && crate::entity::unique_ids(crate::entity::spec_snapshot(tree)),
        r matches Err(message) ==> if spec_pattern_valid(options.exclude_pattern@) {
            message@ == listing_rejection()
        } else {
            is_pattern_rejection(message@)
        },
{
    match pattern_matches(options.exclude_pattern.as_str(), "") {
        Err(detail) => {
            let message = concat2("Invalid exclude pattern: ", detail.as_str());
            assert(message@.subrange(0, "Invalid exclude pattern: "@.len() as int)
                =~= "Invalid exclude pattern: "@);
            Err(message)
        },
        Ok(_) => {
            if !check_listable(raw) {
                return Err(
                    "Invalid directory listing: two entries of one directory bear the same name".to_owned(),
                );
            }
            let bare = build_node(raw, options, 0, true);
            let tree = crate::identity::renew_identities(&bare);
            proof {
                lemma_same_shape(bare, tree);
            }
            Ok(tree)
        },
    }
}

/// Builds the snapshot of the directory whose raw listing is `raw`, with the default
/// options.
pub fn build_tree(raw: &TreeNode) -> (r: Result<TreeNode, String>)
    ensures
        r is Ok <==> spec_pattern_valid("node_modules|.git"@) && listable(*raw),
        r matches Ok(tree) ==> shape_of(tree) == built_node(
            *raw,
            OptionsView {
                max_depth: 10,
                exclude_pattern: "node_modules|.git"@,
                show_hidden: false,
            },
            0,
            true,
        ) && crate::entity::all_identified(crate::entity::spec_snapshot(tree))
            && crate::entity::unique_ids(crate::entity::spec_snapshot(tree)),
        r matches Err(message) ==> if spec_pattern_valid("node_modules|.git"@) {
            message@ == listing_rejection()
        } else {
            is_pattern_rejection(message@)
        },
{
    let options = DirectoryOptions::default();
    build_tree_with_options(raw, &options)
}

/// What stands in the way of listing the directory at `path`, which the caller found to
/// be there or not, and to be a directory or not: nothing for a directory that is there.
pub open spec fn spec_directory_problem(path: Seq<char>, exists: bool, is_dir: bool) -> Option<
    Seq<char>,
> {
    if !exists {
        Some("Path does not exist: "@ + path)
    } else if !is_dir {
        Some("Path is not a directory: "@ + path)
    } else {
        None
    }
}

/// Says whether the directory at `path` can be listed, and if not, why not.
pub fn check_directory(path: &str, exists: bool, is_dir: bool) -> (r: Result<(), String>)
    ensures
        r is Ok <==> spec_directory_problem(path@, exists, is_dir) is None,
        r matches Err(message) ==> Some(message@) == spec_directory_problem(
            path@,
            exists,
            is_dir,
        ),
{
    if !exists {
        Err(concat2("Path does not exist: ", path))
    } else if !is_dir {
        Err(concat2("Path is not a directory: ", path))
    } else {
        Ok(())
    }
}

} // verus!
