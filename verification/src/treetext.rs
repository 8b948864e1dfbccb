//! A tree written as indented text, one entity per line.
//!
//! The first line names the root directory and ends in `/`. Every other line holds an
//! indentation of four columns for each level below the first, a connector (`├── ` or
//! `└── `), and a name, which ends in `/` for a directory. The columns of the indentation
//! are blanks or the vertical bar that joins the connectors of one directory.
//!
//! Read back, every entity is listed under its path from the root: the names from the
//! root down to it, joined by `/`. A text that lists a path twice lists no tree.

use vstd::prelude::*;
use crate::entity::{kinds_view, Entity};
use crate::outside::push_char;
use crate::text::{chars_between, chars_of, string_of};
use crate::tree::TreeNode;

verus! {

/// The classes of characters that the parser skips over.
#[derive(Clone, Copy, Debug, PartialEq, Eq, Structural)]
pub enum CharClass {
    /// White space as Unicode defines it.
    Space,
    /// What an indentation is made of: white space and the vertical bar `│`.
    Indent,
    /// The separator `/`.
    Slash,
}

/// Whether `c` is white space: a character with the Unicode property `White_Space`.
pub open spec fn is_space(c: char) -> bool {
    let n = c as u32;
    (0x9 <= n <= 0xD) || n == 0x20 || n == 0x85 || n == 0xA0 || n == 0x1680 || (0x2000 <= n
        <= 0x200A) || n == 0x2028 || n == 0x2029 || n == 0x202F || n == 0x205F || n == 0x3000
}

/// Whether `c` belongs to `class`.
pub open spec fn in_class(class: CharClass, c: char) -> bool {
    match class {
        CharClass::Space => is_space(c),
        CharClass::Indent => is_space(c) || c == '│',
        CharClass::Slash => c == '/',
    }
}

/// Whether `c` belongs to `class`.
pub fn belongs(class: CharClass, c: char) -> (b: bool)
    ensures
        b == in_class(class, c),
{
    let n = c as u32;
    let space = (0x9 <= n && n <= 0xD) || n == 0x20 || n == 0x85 || n == 0xA0 || n == 0x1680 || (
    0x2000 <= n && n <= 0x200A) || n == 0x2028 || n == 0x2029 || n == 0x202F || n == 0x205F || n
        == 0x3000;
    match class {
        CharClass::Space => space,
        CharClass::Indent => space || c == '│',
        CharClass::Slash => c == '/',
    }
}

/// The first position at or after `from` of `line` that holds no character of `class`;
/// the length of `line` where there is none.
pub open spec fn skip_class(line: Seq<char>, class: CharClass, from: nat) -> nat
    decreases line.len() - from,
{
    if from < line.len() && in_class(class, line[from as int]) {
        skip_class(line, class, from + 1)
    } else {
        from
    }
}

/// What is left of the first `to` characters of `line` once the characters of `class` at
/// their end are gone: the length of that rest.
pub open spec fn strip_class(line: Seq<char>, class: CharClass, to: nat) -> nat
    decreases to,
{
    if 0 < to <= line.len() && in_class(class, line[to - 1]) {
        strip_class(line, class, (to - 1) as nat)
    } else {
        to
    }
}

/// Finds the end of the run of characters of `class` that begins at `from`.
pub fn skip_leading(line: &Vec<char>, class: CharClass, from: usize) -> (i: usize)
    requires
        from <= line.len(),
    ensures
        i == skip_class(line@, class, from as nat),
        from <= i <= line.len(),
{
    let mut i: usize = from;
    while i < line.len() && belongs(class, line[i])
        invariant
            from <= i <= line.len(),
            skip_class(line@, class, from as nat) == skip_class(line@, class, i as nat),
        decreases line.len() - i,
    {
        i = i + 1;
    }
    i
}

/// Finds the beginning of the run of characters of `class` that ends at `to`.
pub fn strip_trailing(line: &Vec<char>, class: CharClass, to: usize) -> (i: usize)
    requires
        to <= line.len(),
    ensures
        i == strip_class(line@, class, to as nat),
        i <= to,
{
    let mut i: usize = to;
    while i > 0 && belongs(class, line[i - 1])
        invariant
            i <= to <= line.len(),
            strip_class(line@, class, to as nat) == strip_class(line@, class, i as nat),
        decreases i,
    {
        i = i - 1;
    }
    i
}

/// The lines of `text`: the pieces between its line feeds. A text without a line feed is
/// one line, and a text that ends in a line feed ends in an empty line.
pub open spec fn split_lines(text: Seq<char>) -> Seq<Seq<char>>
    decreases text.len(),
{
    if text.len() == 0 {
        seq![Seq::<char>::empty()]
    } else {
        let before = split_lines(text.drop_last());
        if text.last() == '\n' {
            before.push(Seq::empty())
        } else {
            before.drop_last().push(before.last().push(text.last()))
        }
    }
}

/// A text has at least one line.
pub proof fn lemma_split_lines_nonempty(text: Seq<char>)
    ensures
        split_lines(text).len() >= 1,
    decreases text.len(),
{
    if text.len() > 0 {
        lemma_split_lines_nonempty(text.drop_last());
    }
}

/// The views of a sequence of lines.
pub open spec fn lines_view(lines: Seq<Vec<char>>) -> Seq<Seq<char>> {
    lines.map_values(|l: Vec<char>| l@)
}

/// Cuts `text` into its lines.
pub fn lines_of(text: &str) -> (lines: Vec<Vec<char>>)
    ensures
        lines_view(lines@) == split_lines(text@),
        lines.len() >= 1,
{
    let v = chars_of(text);
    let mut done: Vec<Vec<char>> = Vec::new();
    let mut current: Vec<char> = Vec::new();
    let mut i: usize = 0;
    assert(v@.subrange(0, 0) =~= Seq::<char>::empty());
    assert(lines_view(done@).push(current@) =~= seq![Seq::<char>::empty()]);
    while i < v.len()
        invariant
            i <= v.len(),
            lines_view(done@).push(current@) == split_lines(v@.subrange(0, i as int)),
        decreases v.len() - i,
    {
        let ghost prefix = v@.subrange(0, i as int);
        let ghost next = v@.subrange(0, i + 1);
        assert(next.drop_last() =~= prefix);
        assert(next.last() == v@[i as int]);
        let ghost before = lines_view(done@).push(current@);
        if v[i] == '\n' {
            assert(lines_view(done@.push(current)) =~= before);
            done.push(current);
            current = Vec::new();
            assert(lines_view(done@).push(current@) =~= before.push(Seq::empty()));
        } else {
            assert(before.drop_last() =~= lines_view(done@));
            current.push(v[i]);
        }
        i = i + 1;
    }
    assert(v@.subrange(0, v.len() as int) =~= v@);
    assert(lines_view(done@.push(current)) =~= lines_view(done@).push(current@));
    done.push(current);
    done
}

/// Whether `line` holds nothing but indentation, and so names no entity.
pub open spec fn is_blank(line: Seq<char>) -> bool {
    skip_class(line, CharClass::Indent, 0) == line.len()
}

/// Whether a connector, `├── ` or `└── `, begins at position `at` of `line`.
pub open spec fn connector_at(line: Seq<char>, at: nat) -> bool {
    &&& at + 4 <= line.len()
    &&& (line[at as int] == '├' || line[at as int] == '└')
    &&& line[at as int + 1] == '─'
    &&& line[at as int + 2] == '─'
    &&& line[at as int + 3] == ' '
}

/// What one line below the first says.
pub struct LineEntry {
    /// How deep the entity lies: 1 directly below the root, one more for every four
    /// columns of indentation.
    pub level: nat,
    /// The name, without a connector before it and without the `/` of a directory.
    pub name: Seq<char>,
    /// Whether the line names a directory.
    pub is_dir: bool,
}

/// Where the name begins in `line`: behind the indentation, and behind the connector if
/// one follows the indentation.
pub open spec fn name_start(line: Seq<char>) -> nat {
    let indent = skip_class(line, CharClass::Indent, 0);
    if connector_at(line, indent) {
        indent + 4
    } else {
        indent
    }
}

/// Reads one line that is not blank.
pub open spec fn line_entry(line: Seq<char>) -> LineEntry {
    let start = name_start(line);
    let is_dir = start < line.len() && line.last() == '/';
    let stripped = if is_dir {
        strip_class(line, CharClass::Slash, line.len())
    } else {
        line.len()
    };
    let end = if stripped < start {
        start
    } else {
        stripped
    };
    LineEntry {
        level: skip_class(line, CharClass::Indent, 0) / 4 + 1,
        name: line.subrange(start as int, end as int),
        is_dir,
    }
}

/// The names on the way to an entity at `level`, given the names on the way to the entity
/// before it: the name of the root and as many of the names below it as lie above the
/// level, at most `level` names in all, and then the name of the entity itself.
pub open spec fn place(stack: Seq<Seq<char>>, level: nat, name: Seq<char>) -> Seq<Seq<char>> {
    if stack.len() > level {
        stack.take(level as int).push(name)
    } else {
        stack.push(name)
    }
}

/// The names of `stack` joined by `/`.
pub open spec fn join_segments(stack: Seq<Seq<char>>) -> Seq<char>
    decreases stack.len(),
{
    if stack.len() == 0 {
        Seq::empty()
    } else if stack.len() == 1 {
        stack[0]
    } else {
        join_segments(stack.drop_last()) + seq!['/'] + stack.last()
    }
}

/// What the parser knows after some lines: the names on the way to the last entity, and
/// the path and kind of every entity so far.
pub struct ParseState {
    pub stack: Seq<Seq<char>>,
    pub entries: Seq<(Seq<char>, bool)>,
}

/// The state after the first `n` of `lines`, the first of which names the root `root`.
/// A blank line changes nothing; every other line adds one entity, whose path is made of
/// the names on the way to it.
pub open spec fn parse_upto(lines: Seq<Seq<char>>, root: Seq<char>, n: nat) -> ParseState
    decreases n,
{
    if n <= 1 || n > lines.len() {
        ParseState { stack: seq![root], entries: seq![(root, true)] }
    } else {
        let before = parse_upto(lines, root, (n - 1) as nat);
        let line = lines[n - 1];
        if is_blank(line) {
            before
        } else {
            let entry = line_entry(line);
            let stack = place(before.stack, entry.level, entry.name);
            ParseState {
                stack,
                entries: before.entries.push((join_segments(stack), entry.is_dir)),
            }
        }
    }
}

/// `line` without the white space at its two ends.
pub open spec fn trimmed(line: Seq<char>) -> Seq<char> {
    let from = skip_class(line, CharClass::Space, 0);
    let to = strip_class(line, CharClass::Space, line.len());
    if from < to {
        line.subrange(from as int, to as int)
    } else {
        Seq::empty()
    }
}

/// The name of the root that the first line gives, if the line names a directory: the
/// line without the white space around it and without the `/` at its end.
pub open spec fn root_name(first: Seq<char>) -> Option<Seq<char>> {
    let t = trimmed(first);
    if t.len() > 0 && t.last() == '/' {
        Some(t.subrange(0, strip_class(t, CharClass::Slash, t.len()) as int))
    } else {
        None
    }
}

/// The entities that `text` lists, each with its path and its kind, in the order of the
/// lines; nothing where the first line does not name a directory. Every path begins with
/// the name of the root: the root is listed under its name, everything else under the
/// names from the root down to it, joined by `/`.
pub open spec fn listed_entries(text: Seq<char>) -> Option<Seq<(Seq<char>, bool)>> {
    let lines = split_lines(text);
    match root_name(lines[0]) {
        Some(root) => Some(parse_upto(lines, root, lines.len()).entries),
        None => None,
    }
}

/// Whether no path is listed twice in `listing`.
pub open spec fn distinct_keys(listing: Seq<(Seq<char>, bool)>) -> bool {
    forall|i: int, j: int|
        0 <= i < j < listing.len() ==> (#[trigger] listing[i]).0 != (#[trigger] listing[j]).0
}

/// What reading `text` yields: the entities it lists, or the reason why it lists no
/// tree. A text whose first line does not name a directory is rejected, and so is a text
/// that lists a path twice, as it does where two entities of one directory bear the same
/// name.
pub open spec fn spec_parse_tree_text(text: Seq<char>) -> Result<
    Seq<(Seq<char>, bool)>,
    Seq<char>,
> {
    match listed_entries(text) {
        None => Err("Root line must be a directory"@),
        Some(listing) => if distinct_keys(listing) {
            Ok(listing)
        } else {
            Err("Duplicate path"@)
        },
    }
}

/// Whether no path is listed twice in `paths`.
pub fn has_distinct_keys(paths: &Vec<(String, bool)>) -> (ok: bool)
    ensures
        ok == distinct_keys(kinds_view(paths@)),
{
    let ghost views = kinds_view(paths@);
    let mut j: usize = 0;
    while j < paths.len()
        invariant
            j <= paths.len(),
            views == kinds_view(paths@),
            forall|a: int, b: int|
                0 <= a < b < j ==> (#[trigger] views[a]).0 != (#[trigger] views[b]).0,
        decreases paths.len() - j,
    {
        let mut i: usize = 0;
        while i < j
            invariant
                i <= j < paths.len(),
                views == kinds_view(paths@),
                forall|a: int| 0 <= a < i ==> (#[trigger] views[a]).0 != views[j as int].0,
            decreases j - i,
        {
            if paths[i].0 == paths[j].0 {
                assert(views[i as int].0 == views[j as int].0);
                return false;
            }
            i = i + 1;
        }
        j = j + 1;
    }
    true
}

/// Joins the names of `stack` by `/`.
pub fn join_stack(stack: &Vec<Vec<char>>) -> (s: String)
    ensures
        s@ == join_segments(lines_view(stack@)),
{
    let ghost names = lines_view(stack@);
    let mut s = String::new();
    let mut k: usize = 0;
    assert(names.take(0) =~= Seq::<Seq<char>>::empty());
    while k < stack.len()
        invariant
            k <= stack.len(),
            names == lines_view(stack@),
            s@ == join_segments(names.take(k as int)),
        decreases stack.len() - k,
    {
        let ghost before = s@;
        if k > 0 {
            push_char(&mut s, '/');
        }
        let ghost joined = s@;
        let seg = &stack[k];
        let mut i: usize = 0;
        while i < seg.len()
            invariant
                i <= seg.len(),
                s@ == joined + seg@.subrange(0, i as int),
            decreases seg.len() - i,
        {
            push_char(&mut s, seg[i]);
            assert(seg@.subrange(0, i + 1) =~= seg@.subrange(0, i as int).push(seg@[i as int]));
            i = i + 1;
        }
        assert(seg@.subrange(0, seg.len() as int) =~= seg@);
        assert(names.take(k + 1).drop_last() =~= names.take(k as int));
        assert(names.take(k + 1).last() == seg@);
        if k == 0 {
            assert(s@ =~= seg@);
        } else {
            assert(joined =~= before + seq!['/']);
        }
        k = k + 1;
    }
    assert(names.take(stack.len() as int) =~= names);
    s
}

/// Whether a connector begins at position `at` of `line`.
pub fn has_connector(line: &Vec<char>, at: usize) -> (b: bool)
    requires
        at <= line.len(),
    ensures
        b == connector_at(line@, at as nat),
{
    if line.len() - at < 4 {
        return false;
    }
    (line[at] == '├' || line[at] == '└') && line[at + 1] == '─' && line[at + 2] == '─'
        && line[at + 3] == ' '
}

/// Reads a tree written as indented text and lists its entities: each with its path from
/// the root and whether it is a directory, in the order of the lines. No path is listed
/// twice.
///
/// The text is rejected, with the message `Root line must be a directory`, where its first
/// line, white space aside, does not end in `/`, and with the message `Duplicate path`
/// where it lists a path twice.
pub fn parse_tree_text(tree_text: &str) -> (r: Result<Vec<(String, bool)>, String>)
    ensures
        match spec_parse_tree_text(tree_text@) {
            Ok(listing) => r matches Ok(paths) && kinds_view(paths@) == listing,
            Err(reason) => r matches Err(message) && message@ == reason,
        },
        r matches Ok(paths) ==> distinct_keys(kinds_view(paths@)),
{
    let lines = lines_of(tree_text);
    let ghost ls = lines_view(lines@);
    let first = &lines[0];
    assert(first@ == ls[0]);
    let from = skip_leading(first, CharClass::Space, 0);
    let to = strip_trailing(first, CharClass::Space, first.len());
    if from >= to {
        return Err("Root line must be a directory".to_owned());
    }
    if first[to - 1] != '/' {
        assert(trimmed(first@).last() == first@[to - 1]);
        return Err("Root line must be a directory".to_owned());
    }
    assert(trimmed(first@).last() == first@[to - 1]);
    let t = chars_between(first, from, to);
    let end = strip_trailing(&t, CharClass::Slash, t.len());
    let root = chars_between(&t, 0, end);
    assert(root_name(ls[0]) == Some(root@));
    let mut stack: Vec<Vec<char>> = Vec::new();
    let mut paths: Vec<(String, bool)> = Vec::new();
    paths.push((string_of(&root, 0, root.len()), true));
    stack.push(root);
    let ghost root_view = stack@[0]@;
    assert(root_view.subrange(0, root_view.len() as int) =~= root_view);
    assert(lines_view(stack@) =~= seq![root_view]);
    assert(kinds_view(paths@) =~= seq![(root_view, true)]);
    let mut n: usize = 1;
    while n < lines.len()
        invariant
            1 <= n <= lines.len(),
            ls == lines_view(lines@),
            lines_view(stack@) == parse_upto(ls, root_view, n as nat).stack,
            kinds_view(paths@) == parse_upto(ls, root_view, n as nat).entries,
        decreases lines.len() - n,
    {
        let line = &lines[n];
        assert(line@ == ls[n as int]);
        let indent = skip_leading(line, CharClass::Indent, 0);
        if indent < line.len() {
            let start = if has_connector(line, indent) {
                indent + 4
            } else {
                indent
            };
            let is_dir = start < line.len() && line[line.len() - 1] == '/';
            let stripped = if is_dir {
                strip_trailing(line, CharClass::Slash, line.len())
            } else {
                line.len()
            };
            let end = if stripped < start {
                start
            } else {
                stripped
            };
            let name = chars_between(line, start, end);
            let level = indent / 4 + 1;
            let ghost before = lines_view(stack@);
            if stack.len() > level {
                stack.truncate(level);
                assert(lines_view(stack@) =~= before.take(level as int));
            }
            let ghost kept = lines_view(stack@);
            stack.push(name);
            assert(lines_view(stack@) =~= kept.push(line_entry(line@).name));
            assert(lines_view(stack@) == place(before, line_entry(line@).level, line_entry(line@).name));
            let path = join_stack(&stack);
            let ghost listed = kinds_view(paths@);
            paths.push((path, is_dir));
            assert(kinds_view(paths@) =~= listed.push((path@, is_dir)));
        }
        n = n + 1;
    }
    if !has_distinct_keys(&paths) {
        return Err("Duplicate path".to_owned());
    }
    Ok(paths)
}

/// Reads a tree written as indented text, as `parse_tree_text` does, and gives every
/// entity a new random identity. The paths and kinds are those that `parse_tree_text`
/// lists, in the same order; the text is rejected in the same cases and with the same
/// message. No identity is empty and no two entities share one.
pub fn parse_tree_to_entities(tree_text: &str) -> (r: Result<Vec<Entity>, String>)
    ensures
        match spec_parse_tree_text(tree_text@) {
            Ok(listing) => r matches Ok(entities) && crate::entity::path_kinds(
                crate::entity::entities_view(entities@),
            ) == listing,
            Err(reason) => r matches Err(message) && message@ == reason,
        },
        r matches Ok(entities) ==> crate::entity::all_identified(
            crate::entity::entities_view(entities@),
        ) && crate::entity::unique_ids(crate::entity::entities_view(entities@))
            && crate::entity::unique_paths(crate::entity::entities_view(entities@)),
{
    match parse_tree_text(tree_text) {
        Err(message) => Err(message),
        Ok(paths) => {
            let entities = identify(&paths);
            proof {
                let views = crate::entity::entities_view(entities@);
                let listing = kinds_view(paths@);
                assert forall|i: int, j: int| 0 <= i < j < views.len() implies (
                #[trigger] views[i]).path != (#[trigger] views[j]).path by {
                    assert(crate::entity::path_kinds(views)[i] == listing[i]);
                    assert(crate::entity::path_kinds(views)[j] == listing[j]);
                }
            }
            Ok(entities)
        },
    }
}

/// The entities of a listing of paths and kinds, each with a new random identity. No
/// identity is empty and no two entities share one.
pub fn identify(paths: &Vec<(String, bool)>) -> (entities: Vec<Entity>)
    ensures
        crate::entity::path_kinds(crate::entity::entities_view(entities@)) == kinds_view(
            paths@,
        ),
        crate::entity::all_identified(crate::entity::entities_view(entities@)),
        crate::entity::unique_ids(crate::entity::entities_view(entities@)),
{
    let mut given: Vec<String> = Vec::new();
    let mut entities: Vec<Entity> = Vec::new();
    let mut i: usize = 0;
    while i < paths.len()
        invariant
            i <= paths.len(),
            entities.len() == i,
            given.len() == i,
            forall|k: int|
                0 <= k < i ==> (#[trigger] entities@[k]).path@ == paths@[k].0@ && entities@[k].is_dir
                    == paths@[k].1 && entities@[k].id@.len() > 0 && entities@[k].id@
                    == crate::identity::strings_view(given@)[k],
            crate::identity::all_different(crate::identity::strings_view(given@)),
        decreases paths.len() - i,
    {
        let ghost before = crate::identity::strings_view(given@);
        let id = crate::identity::draw_identity(&given);
        given.push(id.clone());
        assert(crate::identity::strings_view(given@) =~= before.push(id@));
        assert forall|a: int, b: int| 0 <= a < b < i + 1 implies crate::identity::strings_view(
            given@,
        )[a] != crate::identity::strings_view(given@)[b] by {
            if b == i {
                assert(before.contains(before[a]));
            } else {
                assert(before[a] != before[b]);
            }
        }
        entities.push(Entity { id, path: paths[i].0.clone(), is_dir: paths[i].1 });
        i = i + 1;
    }
    assert(crate::entity::path_kinds(crate::entity::entities_view(entities@)) =~= kinds_view(
        paths@,
    ));
    proof {
        let views = crate::entity::entities_view(entities@);
        let ids = crate::identity::strings_view(given@);
        assert forall|a: int, b: int| 0 <= a < b < views.len() implies (#[trigger] views[a]).id
            != (#[trigger] views[b]).id by {
            assert(views[a].id == ids[a] && views[b].id == ids[b]);
        }
    }
    entities
}

/// The connector before the name of an entity: one form for the last entity of its
/// directory, another for the others.
pub open spec fn connector(last: bool) -> Seq<char> {
    if last {
        "└── "@
    } else {
        "├── "@
    }
}

/// What the lines below an entity are indented by, beyond the indentation of the entity
/// itself.
pub open spec fn continuation(last: bool) -> Seq<char> {
    if last {
        "    "@
    } else {
        "│   "@
    }
}

/// The lines for `node` and for what it holds: the indentation `prefix`, the connector
/// and the name; for a directory a `/` after the name and then the lines of its children,
/// indented further.
pub open spec fn format_node(node: TreeNode, prefix: Seq<char>, last: bool) -> Seq<char>
    decreases node, 0nat,
{
    let head = prefix + connector(last) + node.name@;
    if node.is_dir {
        head + "/\n"@ + format_nodes(
            node.children@,
            prefix + continuation(last),
            node.children@.len(),
        )
    } else {
        head + "\n"@
    }
}

/// The lines for the first `n` of `nodes`, the entities of one directory.
pub open spec fn format_nodes(nodes: Seq<TreeNode>, prefix: Seq<char>, n: nat) -> Seq<char>
    decreases nodes, n,
{
    if n == 0 || n > nodes.len() {
        Seq::empty()
    } else {
        format_nodes(nodes, prefix, (n - 1) as nat) + format_node(
            nodes[n - 1],
            prefix,
            n == nodes.len(),
        )
    }
}

/// Appends to `result` the lines for `nodes`, the entities of one directory, each line
/// indented by `prefix`. The last argument has no effect.
pub fn format_tree(nodes: &Vec<TreeNode>, result: &mut String, prefix: &str, _is_last: bool)
    ensures
        final(result)@ == old(result)@ + format_nodes(nodes@, prefix@, nodes@.len()),
    decreases nodes,
{
    let ghost start = result@;
    let mut i: usize = 0;
    while i < nodes.len()
        invariant
            i <= nodes.len(),
            result@ == start + format_nodes(nodes@, prefix@, i as nat),
        decreases nodes.len() - i,
    {
        let node = &nodes[i];
        let is_last_node = i == nodes.len() - 1;
        let ghost before = result@;
        result.append(prefix);
        if is_last_node {
            result.append("└── ");
        } else {
            result.append("├── ");
        }
        result.append(node.name.as_str());
        if node.is_dir {
            result.append("/\n");
            let mut new_prefix = prefix.to_owned();
            if is_last_node {
                new_prefix.append("    ");
            } else {
                new_prefix.append("│   ");
            }
            format_tree(&node.children, result, new_prefix.as_str(), is_last_node);
        } else {
            result.append("\n");
        }
        assert(result@ =~= before + format_node(*node, prefix@, is_last_node));
        i = i + 1;
    }
}

/// The text of the tree under `root`: a line with the name of the root and a `/`, then the
/// lines of what it holds.
pub open spec fn spec_render(root: TreeNode) -> Seq<char> {
    root.name@ + "/\n"@ + format_nodes(root.children@, Seq::empty(), root.children@.len())
}

/// Writes the tree under `root` as indented text.
pub fn render_tree(root: &TreeNode) -> (text: String)
    ensures
        text@ == spec_render(*root),
{
    let mut text = root.name.clone();
    text.append("/\n");
    proof {
        reveal_strlit("");
        assert(""@ =~= Seq::<char>::empty());
    }
    format_tree(&root.children, &mut text, "", true);
    text
}

} // verus!
