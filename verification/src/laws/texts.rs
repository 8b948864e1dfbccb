//! Laws of trees written as text: what is written can be read back.

use vstd::prelude::*;
use crate::entity::{entity_of, flatten_children, path_kinds, spec_flatten, EntityView};
use crate::text::spec_join;
use crate::tree::{valid_name, TreeNode};
use crate::treetext::{
    connector,
    connector_at,
    continuation,
    format_node,
    format_nodes,
    in_class,
    is_blank,
    is_space,
    join_segments,
    line_entry,
    name_start,
    parse_upto,
    place,
    root_name,
    skip_class,
    spec_parse_tree_text,
    spec_render,
    split_lines,
    strip_class,
    trimmed,
    CharClass,
    LineEntry,
    ParseState,
};

verus! {

/// Whether `name` can be written on a line and read back: it is one path segment and
/// holds no line feed.
pub open spec fn writable_name(name: Seq<char>) -> bool {
    valid_name(name) && !name.contains('\n')
}

/// Whether every name in the subtree at `node`, the name of `node` aside, can be written
/// and read back, and every file of the subtree has no children.
pub open spec fn writable_node(node: TreeNode) -> bool
    decreases node, 0nat,
{
    &&& !node.is_dir ==> node.children@.len() == 0
    &&& writable_children(node.children@, node.children@.len())
}

/// Whether the first `n` of `children` have names that can be written and read back, and
/// subtrees of which the same holds.
pub open spec fn writable_children(children: Seq<TreeNode>, n: nat) -> bool
    decreases children, n,
{
    if n == 0 || n > children.len() {
        true
    } else {
        &&& writable_children(children, (n - 1) as nat)
        &&& writable_name(children[n - 1].name@)
        &&& writable_node(children[n - 1])
    }
}

/// Whether the name of a root can be written on the first line and read back: it holds
/// no separator and no line feed and does not begin with white space.
pub open spec fn writable_root_name(name: Seq<char>) -> bool {
    &&& !name.contains('/')
    &&& !name.contains('\n')
    &&& name.len() > 0 ==> !is_space(name[0])
}

/// The line for `node`: the indentation, the connector, the name, and a `/` after the
/// name of a directory.
pub open spec fn node_line(node: TreeNode, prefix: Seq<char>, last: bool) -> Seq<char> {
    prefix + connector(last) + node.name@ + if node.is_dir {
        seq!['/']
    } else {
        Seq::<char>::empty()
    }
}

/// The lines for `node` and for what it holds.
pub open spec fn node_lines(node: TreeNode, prefix: Seq<char>, last: bool) -> Seq<Seq<char>>
    decreases node, 0nat,
{
    seq![node_line(node, prefix, last)] + if node.is_dir {
        nodes_lines(node.children@, prefix + continuation(last), node.children@.len())
    } else {
        Seq::<Seq<char>>::empty()
    }
}

/// The lines for the first `n` of `nodes`, the entities of one directory.
pub open spec fn nodes_lines(nodes: Seq<TreeNode>, prefix: Seq<char>, n: nat) -> Seq<Seq<char>>
    decreases nodes, n,
{
    if n == 0 || n > nodes.len() {
        Seq::empty()
    } else {
        nodes_lines(nodes, prefix, (n - 1) as nat) + node_lines(
            nodes[n - 1],
            prefix,
            n == nodes.len(),
        )
    }
}

/// The text made of `lines`, each followed by a line feed.
pub open spec fn text_of(lines: Seq<Seq<char>>) -> Seq<char>
    decreases lines.len(),
{
    if lines.len() == 0 {
        Seq::empty()
    } else {
        text_of(lines.drop_last()) + lines.last() + seq!['\n']
    }
}

/// The text of two lists of lines in a row is the two texts in a row.
pub proof fn lemma_text_of_concat(a: Seq<Seq<char>>, b: Seq<Seq<char>>)
    ensures
        text_of(a + b) == text_of(a) + text_of(b),
    decreases b.len(),
{
    if b.len() == 0 {
        assert(a + b =~= a);
        assert(text_of(a) + text_of(b) =~= text_of(a));
    } else {
        lemma_text_of_concat(a, b.drop_last());
        assert((a + b).drop_last() =~= a + b.drop_last());
        assert((a + b).last() == b.last());
        assert(text_of(a + b) =~= text_of(a) + text_of(b));
    }
}

/// The text of one line is the line and a line feed.
pub proof fn lemma_text_of_one(line: Seq<char>)
    ensures
        text_of(seq![line]) == line + seq!['\n'],
{
    assert(seq![line].drop_last() =~= Seq::<Seq<char>>::empty());
    assert(text_of(seq![line].drop_last()) =~= Seq::<char>::empty());
    assert(seq![line].last() == line);
    assert(text_of(seq![line]) =~= line + seq!['\n']);
}

/// What is written for a subtree is the text of its lines.
pub proof fn lemma_format_node_lines(node: TreeNode, prefix: Seq<char>, last: bool)
    ensures
        format_node(node, prefix, last) == text_of(node_lines(node, prefix, last)),
    decreases node, 1nat,
{
    reveal_strlit("/\n");
    reveal_strlit("\n");
    let line = node_line(node, prefix, last);
    lemma_text_of_one(line);
    if node.is_dir {
        let inner = nodes_lines(node.children@, prefix + continuation(last), node.children@.len());
        lemma_format_nodes_lines(node.children@, prefix + continuation(last), node.children@.len());
        lemma_text_of_concat(seq![line], inner);
        assert("/\n"@ =~= seq!['/', '\n']);
        assert(prefix + connector(last) + node.name@ + "/\n"@ =~= line + seq!['\n']);
        assert(format_node(node, prefix, last) =~= text_of(seq![line]) + text_of(inner));
    } else {
        assert("\n"@ =~= seq!['\n']);
        assert(node_lines(node, prefix, last) =~= seq![line]);
        assert(format_node(node, prefix, last) =~= line + seq!['\n']);
    }
}

/// What is written for the entities of a directory is the text of their lines.
pub proof fn lemma_format_nodes_lines(nodes: Seq<TreeNode>, prefix: Seq<char>, n: nat)
    ensures
        format_nodes(nodes, prefix, n) == text_of(nodes_lines(nodes, prefix, n)),
    decreases nodes, n,
{
    if n == 0 || n > nodes.len() {
    } else {
        lemma_format_nodes_lines(nodes, prefix, (n - 1) as nat);
        lemma_format_node_lines(nodes[n - 1], prefix, n == nodes.len());
        lemma_text_of_concat(
            nodes_lines(nodes, prefix, (n - 1) as nat),
            node_lines(nodes[n - 1], prefix, n == nodes.len()),
        );
    }
}

/// A text continued by characters that are no line feeds has the same lines, the last of
/// them continued by those characters.
pub proof fn lemma_split_lines_extend(text: Seq<char>, more: Seq<char>)
    requires
        !more.contains('\n'),
    ensures
        split_lines(text + more) == split_lines(text).drop_last().push(
            split_lines(text).last() + more,
        ),
    decreases more.len(),
{
    crate::treetext::lemma_split_lines_nonempty(text);
    let lines = split_lines(text);
    if more.len() == 0 {
        assert(text + more =~= text);
        assert(lines.last() + more =~= lines.last());
        assert(lines.drop_last().push(lines.last()) =~= lines);
    } else {
        let shorter = more.drop_last();
        assert(more.contains(more.last()));
        assert forall|c: char| shorter.contains(c) implies more.contains(c) by {
            let i = choose|i: int| 0 <= i < shorter.len() && shorter[i] == c;
            assert(more[i] == c);
        }
        lemma_split_lines_extend(text, shorter);
        assert((text + more).drop_last() =~= text + shorter);
        assert((text + more).last() == more.last());
        let before = split_lines(text + shorter);
        assert(before.drop_last() =~= lines.drop_last());
        assert(before.last() + seq![more.last()] =~= lines.last() + more);
        assert(before.last().push(more.last()) =~= lines.last() + more);
    }
}

/// Whether no line of `lines` holds a line feed.
pub open spec fn single_lines(lines: Seq<Seq<char>>) -> bool {
    forall|i: int| 0 <= i < lines.len() ==> !(#[trigger] lines[i]).contains('\n')
}

/// The lines of the text of a list of lines are those lines and an empty line after the
/// last line feed.
pub proof fn lemma_split_text_of(lines: Seq<Seq<char>>)
    requires
        single_lines(lines),
    ensures
        split_lines(text_of(lines)) == lines.push(Seq::empty()),
    decreases lines.len(),
{
    if lines.len() == 0 {
        assert(split_lines(text_of(lines)) =~= lines.push(Seq::empty()));
    } else {
        let before = lines.drop_last();
        let line = lines.last();
        assert forall|i: int| 0 <= i < before.len() implies !(#[trigger] before[i]).contains(
            '\n',
        ) by {
            assert(before[i] == lines[i]);
        }
        lemma_split_text_of(before);
        lemma_split_lines_extend(text_of(before), line);
        let text = text_of(before) + line + seq!['\n'];
        assert(text.drop_last() =~= text_of(before) + line);
        assert(text.last() == '\n');
        let split_before = split_lines(text_of(before));
        assert(split_before.drop_last() =~= before);
        assert(split_before.last() + line =~= line);
        assert(split_lines(text) =~= lines.push(Seq::empty()));
    }
}

/// Whether `prefix` is an indentation as it is written: blanks and vertical bars.
pub open spec fn is_indentation(prefix: Seq<char>) -> bool {
    forall|i: int| 0 <= i < prefix.len() ==> (#[trigger] prefix[i]) == ' ' || prefix[i] == '│'
}

/// Skipping over a line that begins with an indentation and goes on with a character
/// that is none arrives at the end of the indentation.
pub proof fn lemma_skip_indentation(line: Seq<char>, n: nat, from: nat)
    requires
        from <= n < line.len(),
        forall|i: int| 0 <= i < n ==> in_class(CharClass::Indent, #[trigger] line[i]),
        !in_class(CharClass::Indent, line[n as int]),
    ensures
        skip_class(line, CharClass::Indent, from) == n,
    decreases n - from,
{
    if from < n {
        lemma_skip_indentation(line, n, from + 1);
    }
}

/// The line of an entity `level` levels deep says what the entity is: its level, its
/// name and its kind.
pub proof fn lemma_node_line_entry(node: TreeNode, prefix: Seq<char>, last: bool, level: nat)
    requires
        writable_name(node.name@),
        is_indentation(prefix),
        prefix.len() == 4 * level,
    ensures
        !is_blank(node_line(node, prefix, last)),
        !node_line(node, prefix, last).contains('\n'),
        line_entry(node_line(node, prefix, last)) == (LineEntry {
            level: level + 1,
            name: node.name@,
            is_dir: node.is_dir,
        }),
{
    reveal_strlit("└── ");
    reveal_strlit("├── ");
    let line = node_line(node, prefix, last);
    let c = connector(last);
    let name = node.name@;
    let n = prefix.len() as int;
    assert(c.len() == 4);
    assert(c[0] == '├' || c[0] == '└');
    assert(c[1] == '─' && c[2] == '─' && c[3] == ' ');
    assert forall|i: int| 0 <= i < n implies in_class(CharClass::Indent, #[trigger] line[i]) by {
        assert(line[i] == prefix[i]);
    }
    assert(line[n] == c[0]);
    assert(line[n + 1] == c[1] && line[n + 2] == c[2] && line[n + 3] == c[3]);
    assert(!in_class(CharClass::Indent, '├'));
    assert(!in_class(CharClass::Indent, '└'));
    lemma_skip_indentation(line, n as nat, 0);
    assert(connector_at(line, n as nat));
    assert(name_start(line) == n + 4);
    assert(name.contains(name.last()));
    let start = n + 4;
    assert forall|i: int| 0 <= i < name.len() implies line[start + i] == name[i] by {}
    if node.is_dir {
        assert(line.last() == '/');
        assert(line.len() == start + name.len() + 1);
        assert(line[line.len() - 2] == name.last());
        assert(strip_class(line, CharClass::Slash, (line.len() - 1) as nat) == line.len() - 1);
        assert(strip_class(line, CharClass::Slash, line.len()) == line.len() - 1);
        assert(line.subrange(start, line.len() - 1) =~= name);
    } else {
        assert(line =~= prefix + c + name);
        assert(line.last() == name.last());
        assert(line.subrange(start, line.len() as int) =~= name);
    }
    assert((4 * level) / 4 == level) by (nonlinear_arith);
    assert(!line.contains('\n')) by {
        if line.contains('\n') {
            let i = choose|i: int| 0 <= i < line.len() && line[i] == '\n';
            if i < n {
                assert(line[i] == prefix[i]);
            } else if i >= start {
                if i < start + name.len() {
                    assert(line[i] == name[i - start]);
                    assert(name.contains('\n'));
                }
            }
        }
    }
}

/// What one line does to the state of the parser.
pub open spec fn feed(state: ParseState, line: Seq<char>) -> ParseState {
    if is_blank(line) {
        state
    } else {
        let entry = line_entry(line);
        let stack = place(state.stack, entry.level, entry.name);
        ParseState { stack, entries: state.entries.push((join_segments(stack), entry.is_dir)) }
    }
}

/// The state of the parser after the first `n` of `lines`, begun in `state`.
pub open spec fn run(state: ParseState, lines: Seq<Seq<char>>, n: nat) -> ParseState
    decreases n,
{
    if n == 0 || n > lines.len() {
        state
    } else {
        feed(run(state, lines, (n - 1) as nat), lines[n - 1])
    }
}

/// The state in which the parser begins below the first line.
pub open spec fn begun(root: Seq<char>) -> ParseState {
    ParseState { stack: seq![root], entries: seq![(root, true)] }
}

/// Parsing a text is running the parser over the lines below the first.
pub proof fn lemma_parse_is_run(lines: Seq<Seq<char>>, root: Seq<char>, n: nat)
    requires
        1 <= n <= lines.len(),
    ensures
        parse_upto(lines, root, n) == run(
            begun(root),
            lines.subrange(1, lines.len() as int),
            (n - 1) as nat,
        ),
    decreases n,
{
    if n > 1 {
        lemma_parse_is_run(lines, root, (n - 1) as nat);
        assert(lines.subrange(1, lines.len() as int)[n - 2] == lines[n - 1]);
    }
}

/// Running over two lists of lines in a row is running over the first and then, from
/// where that ends, over the second.
pub proof fn lemma_run_concat(state: ParseState, a: Seq<Seq<char>>, b: Seq<Seq<char>>, m: nat)
    requires
        m <= b.len(),
    ensures
        run(state, a + b, a.len() + m) == run(run(state, a, a.len()), b, m),
    decreases m,
{
    if m == 0 {
        lemma_run_prefix(state, a + b, a, a.len());
    } else {
        lemma_run_concat(state, a, b, (m - 1) as nat);
        assert((a + b)[a.len() + m - 1] == b[m - 1]);
    }
}

/// The state after the first `n` lines depends on those lines alone.
pub proof fn lemma_run_prefix(state: ParseState, a: Seq<Seq<char>>, b: Seq<Seq<char>>, n: nat)
    requires
        n <= a.len(),
        n <= b.len(),
        forall|i: int| 0 <= i < n ==> a[i] == b[i],
    ensures
        run(state, a, n) == run(state, b, n),
    decreases n,
{
    if n > 0 {
        lemma_run_prefix(state, a, b, (n - 1) as nat);
    }
}

/// Whether the names on the way to the last entity begin with `ancestors`.
pub open spec fn stack_holds(stack: Seq<Seq<char>>, ancestors: Seq<Seq<char>>) -> bool {
    stack.len() >= ancestors.len() && stack.take(ancestors.len() as int) == ancestors
}

/// Whether none of `names` is empty.
pub open spec fn no_empty_name(names: Seq<Seq<char>>) -> bool {
    forall|i: int| 0 <= i < names.len() ==> (#[trigger] names[i]).len() > 0
}

/// Names that are not empty join to a path that is not empty.
pub proof fn lemma_join_nonempty(names: Seq<Seq<char>>)
    requires
        no_empty_name(names),
        names.len() > 0,
    ensures
        join_segments(names).len() > 0,
    decreases names.len(),
{
    if names.len() > 1 {
        assert(names.last().len() > 0);
    } else {
        assert(names[0].len() > 0);
    }
}

/// Joining the names on the way to an entity and its own name gives its path in the
/// directory that the names on the way lead to.
pub proof fn lemma_join_push(ancestors: Seq<Seq<char>>, name: Seq<char>)
    requires
        no_empty_name(ancestors),
    ensures
        join_segments(ancestors.push(name)) == spec_join(join_segments(ancestors), name),
{
    let all = ancestors.push(name);
    assert(all.drop_last() =~= ancestors);
    if ancestors.len() > 0 {
        lemma_join_nonempty(ancestors);
    }
}

/// An entity takes its place right after the names on the way to it, of which there are
/// as many as its level says.
pub proof fn lemma_place(stack: Seq<Seq<char>>, ancestors: Seq<Seq<char>>, name: Seq<char>)
    requires
        stack_holds(stack, ancestors),
    ensures
        place(stack, ancestors.len(), name) == ancestors.push(name),
{
    if stack.len() <= ancestors.len() {
        assert(stack.take(ancestors.len() as int) =~= stack);
    }
}

/// The paths and kinds of two listings in a row are those of the two in a row.
pub proof fn lemma_path_kinds_concat(a: Seq<EntityView>, b: Seq<EntityView>)
    ensures
        path_kinds(a + b) == path_kinds(a) + path_kinds(b),
{
    assert(path_kinds(a + b) =~= path_kinds(a) + path_kinds(b));
}

/// Reading the lines of a subtree lists the subtree: the parser adds the path and the
/// kind of every entity of the subtree, in pre-order, and ends with the names on the way
/// to the top of the subtree still in place.
pub proof fn lemma_run_node(
    state: ParseState,
    node: TreeNode,
    prefix: Seq<char>,
    last: bool,
    ancestors: Seq<Seq<char>>,
)
    requires
        writable_name(node.name@),
        writable_node(node),
        is_indentation(prefix),
        ancestors.len() >= 1,
        prefix.len() + 4 == 4 * ancestors.len(),
        stack_holds(state.stack, ancestors),
        no_empty_name(ancestors),
    ensures
        ({
            let lines = node_lines(node, prefix, last);
            let end = run(state, lines, lines.len());
            &&& end.entries == state.entries + path_kinds(
                spec_flatten(node, join_segments(ancestors)),
            )
            &&& stack_holds(end.stack, ancestors.push(node.name@))
            &&& single_lines(lines)
        }),
    decreases node, 1nat,
{
    reveal_strlit("    ");
    reveal_strlit("│   ");
    let line = node_line(node, prefix, last);
    let lines = node_lines(node, prefix, last);
    let parent = join_segments(ancestors);
    let here = ancestors.push(node.name@);
    lemma_node_line_entry(node, prefix, last, (ancestors.len() - 1) as nat);
    lemma_place(state.stack, ancestors, node.name@);
    lemma_join_push(ancestors, node.name@);
    let first = feed(state, line);
    assert(run(state, seq![line], 1) == first) by {
        assert(run(state, seq![line], 0) == state);
    }
    assert(first.stack == here);
    assert(first.entries == state.entries.push((spec_join(parent, node.name@), node.is_dir)));
    let me = entity_of(node, parent);
    assert(no_empty_name(here)) by {
        assert forall|i: int| 0 <= i < here.len() implies (#[trigger] here[i]).len() > 0 by {
            if i < ancestors.len() {
                assert(here[i] == ancestors[i]);
            }
        }
    }
    if node.is_dir {
        let deeper = prefix + continuation(last);
        let inner = nodes_lines(node.children@, deeper, node.children@.len());
        assert(is_indentation(deeper)) by {
            let c = continuation(last);
            assert(c.len() == 4);
            assert forall|i: int| 0 <= i < deeper.len() implies (#[trigger] deeper[i]) == ' '
                || deeper[i] == '│' by {
                if i < prefix.len() {
                    assert(deeper[i] == prefix[i]);
                } else {
                    assert(deeper[i] == c[i - prefix.len()]);
                }
            }
        }
        assert(stack_holds(first.stack, here)) by {
            assert(here.take(here.len() as int) =~= here);
        }
        lemma_run_nodes(first, node.children@, deeper, node.children@.len(), here);
        lemma_run_concat(state, seq![line], inner, inner.len());
        assert(lines =~= seq![line] + inner);
        let end = run(state, lines, lines.len());
        let below = flatten_children(node.children@, spec_join(parent, node.name@), node.children@.len());
        assert(spec_flatten(node, parent) =~= seq![me] + below);
        lemma_path_kinds_concat(seq![me], below);
        assert(path_kinds(seq![me]) =~= seq![(me.path, me.is_dir)]);
        assert(end.entries =~= state.entries + path_kinds(spec_flatten(node, parent)));
        assert forall|i: int| 0 <= i < lines.len() implies !(#[trigger] lines[i]).contains(
            '\n',
        ) by {
            if i > 0 {
                assert(lines[i] == inner[i - 1]);
            }
        }
    } else {
        assert(lines =~= seq![line]);
        assert(flatten_children(node.children@, spec_join(parent, node.name@), 0)
            =~= Seq::<EntityView>::empty());
        assert(spec_flatten(node, parent) =~= seq![me]);
        assert(path_kinds(seq![me]) =~= seq![(me.path, me.is_dir)]);
        assert(first.entries =~= state.entries + path_kinds(spec_flatten(node, parent)));
        assert(here.take(here.len() as int) =~= here);
    }
}

/// Reading the lines of the first `n` entities of a directory lists their subtrees, one
/// after the other, and ends with the names on the way to the directory still in place.
pub proof fn lemma_run_nodes(
    state: ParseState,
    nodes: Seq<TreeNode>,
    prefix: Seq<char>,
    n: nat,
    ancestors: Seq<Seq<char>>,
)
    requires
        n <= nodes.len(),
        writable_children(nodes, nodes.len()),
        is_indentation(prefix),
        ancestors.len() >= 1,
        prefix.len() + 4 == 4 * ancestors.len(),
        stack_holds(state.stack, ancestors),
        no_empty_name(ancestors),
    ensures
        ({
            let lines = nodes_lines(nodes, prefix, n);
            let end = run(state, lines, lines.len());
            &&& end.entries == state.entries + path_kinds(
                flatten_children(nodes, join_segments(ancestors), n),
            )
            &&& stack_holds(end.stack, ancestors)
            &&& single_lines(lines)
        }),
    decreases nodes, n,
{
    let lines = nodes_lines(nodes, prefix, n);
    let parent = join_segments(ancestors);
    if n == 0 {
        assert(path_kinds(flatten_children(nodes, parent, 0)) =~= Seq::<
            (Seq<char>, bool),
        >::empty());
        assert(state.entries + path_kinds(flatten_children(nodes, parent, 0))
            =~= state.entries);
    } else {
        let before = nodes_lines(nodes, prefix, (n - 1) as nat);
        let node = nodes[n - 1];
        let sub = node_lines(node, prefix, n == nodes.len());
        lemma_writable_prefix(nodes, n, nodes.len());
        lemma_run_nodes(state, nodes, prefix, (n - 1) as nat, ancestors);
        let middle = run(state, before, before.len());
        lemma_run_node(middle, node, prefix, n == nodes.len(), ancestors);
        lemma_run_concat(state, before, sub, sub.len());
        let end = run(state, lines, lines.len());
        let listed = flatten_children(nodes, parent, (n - 1) as nat);
        lemma_path_kinds_concat(listed, spec_flatten(node, parent));
        assert(end.entries =~= state.entries + path_kinds(flatten_children(nodes, parent, n)));
        let after = run(middle, sub, sub.len());
        assert(stack_holds(end.stack, ancestors)) by {
            let here = ancestors.push(node.name@);
            assert(after.stack.take(here.len() as int) == here);
            assert(after.stack.take(ancestors.len() as int) =~= here.take(
                ancestors.len() as int,
            ));
            assert(here.take(ancestors.len() as int) =~= ancestors);
        }
        assert forall|i: int| 0 <= i < lines.len() implies !(#[trigger] lines[i]).contains(
            '\n',
        ) by {
            if i < before.len() {
                assert(lines[i] == before[i]);
            } else {
                assert(lines[i] == sub[i - before.len()]);
            }
        }
    }
}

/// If the first `n` children can be written, so can the first `m` for every `m <= n`.
pub proof fn lemma_writable_prefix(children: Seq<TreeNode>, m: nat, n: nat)
    requires
        m <= n <= children.len(),
        writable_children(children, n),
    ensures
        writable_children(children, m),
    decreases n,
{
    if m < n {
        lemma_writable_prefix(children, m, (n - 1) as nat);
    }
}

/// What is written can be read back: the text of a well-formed tree is accepted and
/// lists every entity of the tree, in pre-order, with its path from the root and its
/// kind. This holds where every name can be written on a line.
pub proof fn lemma_parse_renders(root: TreeNode)
    requires
        crate::tree::well_formed(root),
        valid_name(root.name@),
        writable_root_name(root.name@),
        writable_node(root),
    ensures
        spec_parse_tree_text(spec_render(root)) == Ok::<Seq<(Seq<char>, bool)>, Seq<char>>(
            path_kinds(spec_flatten(root, Seq::empty())),
        ),
{
    reveal_strlit("/\n");
    let name = root.name@;
    let first = name + seq!['/'];
    let body = nodes_lines(root.children@, Seq::empty(), root.children@.len());
    let above = seq![name];
    let state = begun(name);
    assert(stack_holds(state.stack, above)) by {
        assert(state.stack.take(1) =~= above);
    }
    lemma_run_nodes(state, root.children@, Seq::empty(), root.children@.len(), above);
    lemma_format_nodes_lines(root.children@, Seq::empty(), root.children@.len());
    let written = seq![first] + body;
    lemma_text_of_concat(seq![first], body);
    lemma_text_of_one(first);
    assert("/\n"@ =~= seq!['/', '\n']);
    assert(spec_render(root) =~= text_of(written));
    assert(!first.contains('\n')) by {
        if first.contains('\n') {
            let i = choose|i: int| 0 <= i < first.len() && first[i] == '\n';
            if i < name.len() {
                assert(name[i] == '\n');
                assert(name.contains('\n'));
            }
        }
    }
    assert forall|i: int| 0 <= i < written.len() implies !(#[trigger] written[i]).contains(
        '\n',
    ) by {
        if i > 0 {
            assert(written[i] == body[i - 1]);
        }
    }
    lemma_split_text_of(written);
    let lines = written.push(Seq::empty());
    assert(lines[0] == first);
    assert(!is_space('/'));
    assert(skip_class(first, CharClass::Space, 0) == 0) by {
        assert(first[0] == name[0]);
    }
    assert(first.last() == '/');
    assert(strip_class(first, CharClass::Space, first.len()) == first.len());
    assert(trimmed(first) =~= first);
    assert(strip_class(first, CharClass::Slash, first.len()) == name.len()) by {
        assert(first[name.len() - 1] == name.last());
        assert(name.contains(name.last()));
        assert(strip_class(first, CharClass::Slash, name.len()) == name.len());
    }
    assert(first.subrange(0, name.len() as int) =~= name);
    assert(root_name(first) == Some(name));
    lemma_parse_is_run(lines, name, lines.len());
    let rest = lines.subrange(1, lines.len() as int);
    assert(rest =~= body.push(Seq::empty()));
    lemma_run_prefix(state, rest, body, body.len());
    assert(is_blank(Seq::<char>::empty()));
    assert(run(state, rest, rest.len()) == feed(run(state, rest, body.len()), rest[body.len() as int]));
    assert(join_segments(above) == name);
    let none = Seq::<char>::empty();
    let me = entity_of(root, none);
    let below = flatten_children(root.children@, name, root.children@.len());
    assert(spec_flatten(root, none) =~= seq![me] + below);
    lemma_path_kinds_concat(seq![me], below);
    assert(path_kinds(seq![me]) =~= seq![(name, true)]);
    let listed = path_kinds(spec_flatten(root, none));
    assert(state.entries + path_kinds(below) =~= listed);
    assert(crate::treetext::listed_entries(spec_render(root)) == Some(listed));
    crate::laws::snapshots::lemma_flatten_orderly(root, none);
    assert(crate::treetext::distinct_keys(listed)) by {
        let flat = spec_flatten(root, none);
        assert forall|i: int, j: int| 0 <= i < j < listed.len() implies (#[trigger] listed[i]).0
            != (#[trigger] listed[j]).0 by {
            assert(listed[i].0 == flat[i].path && listed[j].0 == flat[j].path);
        }
    }
}

/// Whether the entity at `i` of the listing `far` is the entity at `i` of the listing
/// `near`, at its place under `outer`.
pub open spec fn lies_under(
    far: Seq<EntityView>,
    near: Seq<EntityView>,
    outer: Seq<char>,
    i: int,
) -> bool {
    &&& near[i].path.len() > 0
    &&& far[i].path == outer + seq!['/'] + near[i].path
    &&& far[i].is_dir == near[i].is_dir
}

/// The place under a directory of what lies in a subtree that lies under that directory:
/// the flat listing of a subtree in the directory at `inner` under `outer` lists the
/// same entities as the listing in the directory at `inner`, each at its place under
/// `outer`.
pub proof fn lemma_flatten_under(node: TreeNode, outer: Seq<char>, inner: Seq<char>)
    requires
        outer.len() > 0,
        valid_name(node.name@),
        crate::tree::sound_node(node),
    ensures
        spec_flatten(node, crate::plan::spec_absolute(outer, inner)).len() == spec_flatten(
            node,
            inner,
        ).len(),
        forall|i: int|
            0 <= i < spec_flatten(node, inner).len() ==> #[trigger] lies_under(
                spec_flatten(node, crate::plan::spec_absolute(outer, inner)),
                spec_flatten(node, inner),
                outer,
                i,
            ),
    decreases node, 1nat,
{
    let deep = crate::plan::spec_absolute(outer, inner);
    let t1 = spec_join(deep, node.name@);
    let t0 = spec_join(inner, node.name@);
    assert(t1 =~= outer + seq!['/'] + t0);
    assert(t1 == crate::plan::spec_absolute(outer, t0));
    lemma_children_under(node.children@, outer, t0, node.children@.len());
    let far = spec_flatten(node, deep);
    let near = spec_flatten(node, inner);
    let cf = flatten_children(node.children@, t1, node.children@.len());
    let cn = flatten_children(node.children@, t0, node.children@.len());
    assert(far =~= seq![entity_of(node, deep)] + cf);
    assert(near =~= seq![entity_of(node, inner)] + cn);
    assert forall|i: int| 0 <= i < near.len() implies #[trigger] lies_under(
        far,
        near,
        outer,
        i,
    ) by {
        if i > 0 {
            assert(far[i] == cf[i - 1] && near[i] == cn[i - 1]);
            assert(lies_under(cf, cn, outer, i - 1));
        } else {
            assert(valid_name(node.name@));
        }
    }
}

/// The same of the children of a directory.
pub proof fn lemma_children_under(
    children: Seq<TreeNode>,
    outer: Seq<char>,
    inner: Seq<char>,
    n: nat,
)
    requires
        outer.len() > 0,
        n <= children.len(),
        crate::tree::sound_children(children, children.len()),
    ensures
        flatten_children(children, crate::plan::spec_absolute(outer, inner), n).len()
            == flatten_children(children, inner, n).len(),
        forall|i: int|
            0 <= i < flatten_children(children, inner, n).len() ==> #[trigger] lies_under(
                flatten_children(children, crate::plan::spec_absolute(outer, inner), n),
                flatten_children(children, inner, n),
                outer,
                i,
            ),
    decreases children, n,
{
    if n > 0 {
        let deep = crate::plan::spec_absolute(outer, inner);
        lemma_children_under(children, outer, inner, (n - 1) as nat);
        crate::tree::lemma_sound_children_prefix(children, n, children.len());
        lemma_flatten_under(children[n - 1], outer, inner);
        let bf = flatten_children(children, deep, (n - 1) as nat);
        let bn = flatten_children(children, inner, (n - 1) as nat);
        let sf = spec_flatten(children[n - 1], deep);
        let sn = spec_flatten(children[n - 1], inner);
        let far = flatten_children(children, deep, n);
        let near = flatten_children(children, inner, n);
        assert(far =~= bf + sf);
        assert(near =~= bn + sn);
        assert forall|i: int| 0 <= i < near.len() implies #[trigger] lies_under(
            far,
            near,
            outer,
            i,
        ) by {
            if i < bn.len() {
                assert(far[i] == bf[i] && near[i] == bn[i]);
                assert(lies_under(bf, bn, outer, i));
            } else {
                assert(far[i] == sf[i - bn.len()] && near[i] == sn[i - bn.len()]);
                assert(lies_under(sf, sn, outer, i - bn.len()));
            }
        }
    }
}

/// The listing read back from the text of a tree stands for the snapshot of the tree,
/// identities aside: entity by entity, the same path below the root and the same kind.
pub proof fn lemma_read_back_snapshot(root: TreeNode)
    requires
        crate::tree::well_formed(root),
        valid_name(root.name@),
        writable_root_name(root.name@),
        writable_node(root),
    ensures
        spec_parse_tree_text(spec_render(root)) is Ok,
        path_kinds(
            crate::reconcile::spec_unnamed(spec_parse_tree_text(spec_render(root))->Ok_0),
        ) == path_kinds(crate::entity::spec_snapshot(root)),
{
    lemma_parse_renders(root);
    let none = Seq::<char>::empty();
    let name = root.name@;
    let n = root.children@.len();
    let listing = path_kinds(spec_flatten(root, none));
    let read = crate::reconcile::spec_unnamed(listing);
    let snapshot = crate::entity::spec_snapshot(root);
    let far = flatten_children(root.children@, name, n);
    let near = flatten_children(root.children@, none, n);
    assert(crate::plan::spec_absolute(name, none) == name);
    lemma_children_under(root.children@, name, none, n);
    assert(spec_flatten(root, none) =~= seq![entity_of(root, none)] + far);
    assert(path_kinds(read) =~= path_kinds(snapshot)) by {
        assert(path_kinds(read).len() == path_kinds(snapshot).len());
        assert forall|k: int| 0 <= k < read.len() implies path_kinds(read)[k] == path_kinds(
            snapshot,
        )[k] by {
            if k > 0 {
                assert(listing[k] == path_kinds(far)[k - 1]);
                assert(snapshot[k] == near[k - 1]);
                assert(lies_under(far, near, name, k - 1));
                let path = far[k - 1].path;
                let rel = near[k - 1].path;
                assert(path == name + seq!['/'] + rel);
                assert(path.subrange(0, name.len() as int) =~= name);
                assert(path.subrange(name.len() as int + 1, path.len() as int) =~= rel);
                assert(listing[0].0 == name);
            }
        }
    }
}

} // verus!
