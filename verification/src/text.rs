//! Character-level helpers for names and paths.
//!
//! Strings are reasoned about through their view, a `Seq<char>`. The helpers here move
//! between `&str`, `Vec<char>` and `String` and implement the few path operations the
//! rest of the library needs. Paths use `/` as their only separator.

use vstd::prelude::*;
use crate::outside::push_char;

verus! {

/// The characters of `s`, in order.
pub fn chars_of(s: &str) -> (v: Vec<char>)
    ensures
        v@ == s@,
{
    let mut v: Vec<char> = Vec::new();
    for c in it: s.chars()
        invariant
            v@ == it.seq().take(it.index() as int),
    {
        v.push(c);
    }
    v
}

/// The string made of `v[from..to]`.
pub fn string_of(v: &Vec<char>, from: usize, to: usize) -> (s: String)
    requires
        from <= to <= v.len(),
    ensures
        s@ == v@.subrange(from as int, to as int),
{
    let mut s = String::new();
    let mut i: usize = from;
    while i < to
        invariant
            from <= i <= to <= v.len(),
            s@ == v@.subrange(from as int, i as int),
        decreases to - i,
    {
        push_char(&mut s, v[i]);
        i = i + 1;
    }
    s
}

/// `a` followed by `b`.
pub fn concat2(a: &str, b: &str) -> (s: String)
    ensures
        s@ == a@ + b@,
{
    let mut s = a.to_owned();
    s.append(b);
    s
}

/// `a`, `b` and `c` in a row.
pub fn concat3(a: &str, b: &str, c: &str) -> (s: String)
    ensures
        s@ == a@ + b@ + c@,
{
    let mut s = a.to_owned();
    s.append(b);
    s.append(c);
    s
}

/// `a`, `b`, `c` and `d` in a row.
pub fn concat4(a: &str, b: &str, c: &str, d: &str) -> (s: String)
    ensures
        s@ == a@ + b@ + c@ + d@,
{
    let mut s = a.to_owned();
    s.append(b);
    s.append(c);
    s.append(d);
    s
}

/// The position of the last `/` in `p`, or -1 when it holds none.
pub open spec fn last_slash(p: Seq<char>) -> int
    decreases p.len(),
{
    if p.len() == 0 {
        -1
    } else if p.last() == '/' {
        p.len() - 1
    } else {
        last_slash(p.drop_last())
    }
}

/// What `last_slash` finds is a slash, and no slash follows it.
pub proof fn lemma_last_slash(p: Seq<char>)
    ensures
        -1 <= last_slash(p) < p.len(),
        last_slash(p) >= 0 ==> p[last_slash(p)] == '/',
        forall|i: int| last_slash(p) < i < p.len() ==> p[i] != '/',
    decreases p.len(),
{
    if p.len() > 0 && p.last() != '/' {
        let q = p.drop_last();
        lemma_last_slash(q);
        assert forall|i: int| last_slash(p) < i < p.len() implies p[i] != '/' by {
            if i < q.len() {
                assert(q[i] == p[i]);
            }
        }
    }
}

/// The directory that holds `p`: everything before the last `/`, and the root `/` for a
/// path directly below the root. A path without a separator has none, and neither has
/// the root itself.
pub open spec fn spec_parent_path(p: Seq<char>) -> Option<Seq<char>> {
    if last_slash(p) > 0 {
        Some(p.subrange(0, last_slash(p)))
    } else if last_slash(p) == 0 && p.len() > 1 {
        Some(seq!['/'])
    } else {
        None
    }
}

/// The directory part of `p`: everything before the last `/`, nothing where `p` holds
/// none.
pub open spec fn spec_dir_of(p: Seq<char>) -> Seq<char> {
    if last_slash(p) > 0 {
        p.subrange(0, last_slash(p))
    } else {
        Seq::empty()
    }
}

/// Appending a segment without a separator to a path puts the last `/` right before it.
pub proof fn lemma_last_slash_append(dir: Seq<char>, name: Seq<char>)
    requires
        !name.contains('/'),
    ensures
        last_slash(dir + seq!['/'] + name) == dir.len(),
    decreases name.len(),
{
    let p = dir + seq!['/'] + name;
    if name.len() == 0 {
        assert(p.last() == '/');
    } else {
        assert(name.contains(name.last()));
        assert(p.last() == name.last());
        assert(p.drop_last() =~= dir + seq!['/'] + name.drop_last());
        assert forall|c: char| name.drop_last().contains(c) implies name.contains(c) by {
            let i = choose|i: int| 0 <= i < name.drop_last().len() && name.drop_last()[i] == c;
            assert(name[i] == c);
        }
        lemma_last_slash_append(dir, name.drop_last());
    }
}

/// The last `/` of a path that continues another one with a `/` lies in the continuation
/// when that holds one, and is the joining `/` when it holds none.
pub proof fn lemma_last_slash_joined(root: Seq<char>, rel: Seq<char>)
    ensures
        last_slash(root + seq!['/'] + rel) == if last_slash(rel) >= 0 {
            root.len() + 1 + last_slash(rel)
        } else {
            root.len() as int
        },
    decreases rel.len(),
{
    let p = root + seq!['/'] + rel;
    if rel.len() == 0 {
        assert(p.last() == '/');
    } else {
        assert(p.last() == rel.last());
        assert(p.drop_last() =~= root + seq!['/'] + rel.drop_last());
        lemma_last_slash_joined(root, rel.drop_last());
    }
}

/// The last segment of `p`: everything after the last `/`.
pub open spec fn spec_base_name(p: Seq<char>) -> Seq<char> {
    p.subrange(last_slash(p) + 1, p.len() as int)
}

/// Finds the last `/` of `v`; the result is one more than its position, 0 when there is
/// none.
pub fn after_last_slash(v: &Vec<char>) -> (k: usize)
    ensures
        k == last_slash(v@) + 1,
{
    let mut i: usize = v.len();
    assert(v@.subrange(0, i as int) =~= v@);
    while i > 0
        invariant
            i <= v.len(),
            last_slash(v@) == last_slash(v@.subrange(0, i as int)),
        decreases i,
    {
        if v[i - 1] == '/' {
            assert(v@.subrange(0, i as int).last() == '/');
            return i;
        }
        assert(v@.subrange(0, i as int).drop_last() =~= v@.subrange(0, i - 1));
        i = i - 1;
    }
    assert(v@.subrange(0, 0).len() == 0);
    0
}

/// The parent directory of `path`, if it names one.
pub fn parent_path(path: &str) -> (r: Option<String>)
    ensures
        r is Some <==> spec_parent_path(path@) is Some,
        r matches Some(s) ==> s@ == spec_parent_path(path@)->0,
{
    let v = chars_of(path);
    let k = after_last_slash(&v);
    proof {
        lemma_last_slash(v@);
    }
    if k > 1 {
        Some(string_of(&v, 0, k - 1))
    } else if k == 1 && v.len() > 1 {
        proof {
            reveal_strlit("/");
            assert("/"@ =~= seq!['/']);
        }
        Some("/".to_owned())
    } else {
        None
    }
}

/// The last segment of `path`.
pub fn base_name(path: &str) -> (r: String)
    ensures
        r@ == spec_base_name(path@),
{
    let v = chars_of(path);
    let k = after_last_slash(&v);
    proof {
        lemma_last_slash(v@);
    }
    string_of(&v, k, v.len())
}

/// `parent` and `name` joined by one `/`; `name` alone under an empty parent.
pub open spec fn spec_join(parent: Seq<char>, name: Seq<char>) -> Seq<char> {
    if parent.len() == 0 {
        name
    } else {
        parent + seq!['/'] + name
    }
}

/// The path of `name` inside `parent`.
pub fn join_path(parent: &str, name: &str) -> (r: String)
    ensures
        r@ == spec_join(parent@, name@),
{
    if parent.unicode_len() == 0 {
        name.to_owned()
    } else {
        let mut s = parent.to_owned();
        push_char(&mut s, '/');
        s.append(name);
        s
    }
}

/// A copy of `v[from..to]`.
pub fn chars_between(v: &Vec<char>, from: usize, to: usize) -> (out: Vec<char>)
    requires
        from <= to <= v.len(),
    ensures
        out@ == v@.subrange(from as int, to as int),
{
    let mut out: Vec<char> = Vec::new();
    let mut i: usize = from;
    while i < to
        invariant
            from <= i <= to <= v.len(),
            out@ == v@.subrange(from as int, i as int),
        decreases to - i,
    {
        out.push(v[i]);
        i = i + 1;
    }
    out
}

/// The characters of `path` before its last `/`, and those after it.
pub fn split_path(path: &str) -> (r: (Vec<char>, Vec<char>))
    ensures
        r.0@ == spec_dir_of(path@),
        r.1@ == spec_base_name(path@),
{
    let v = chars_of(path);
    let k = after_last_slash(&v);
    proof {
        lemma_last_slash(v@);
    }
    let dir = if k > 1 {
        chars_between(&v, 0, k - 1)
    } else {
        Vec::new()
    };
    let base = chars_between(&v, k, v.len());
    (dir, base)
}

/// Whether two lists of characters are equal.
pub fn same_chars(a: &Vec<char>, b: &Vec<char>) -> (r: bool)
    ensures
        r == (a@ == b@),
{
    if a.len() != b.len() {
        return false;
    }
    let mut i: usize = 0;
    while i < a.len()
        invariant
            i <= a.len() == b.len(),
            forall|k: int| 0 <= k < i ==> a@[k] == b@[k],
        decreases a.len() - i,
    {
        if a[i] != b[i] {
            return false;
        }
        i = i + 1;
    }
    assert(a@ =~= b@);
    true
}

} // verus!
