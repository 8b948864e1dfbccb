//! The guard of the directories that belong to the operating system.
//!
//! Paths are compared segment by segment. Both separators count, `/` and `\`, so that a
//! path is judged alike on every system. Empty segments and segments that are a single
//! dot name nothing and are passed over.

use vstd::prelude::*;
use crate::text::{chars_of, same_chars};

verus! {

/// Whether `c` separates the segments of a path, on any of the supported systems.
pub open spec fn is_separator(c: char) -> bool {
    c == '/' || c == '\\'
}

/// Whether `piece`, what stands between two separators, is a segment: it is not empty
/// and not a single dot.
pub open spec fn is_segment(piece: Seq<char>) -> bool {
    piece.len() > 0 && piece != seq!['.']
}

/// What the reading of a path has found so far: the segments that are complete, and the
/// characters since the last separator.
pub struct Reading {
    pub done: Seq<Seq<char>>,
    pub current: Seq<char>,
}

/// The segments that `reading` holds once the path ends.
pub open spec fn closed(reading: Reading) -> Seq<Seq<char>> {
    if is_segment(reading.current) {
        reading.done.push(reading.current)
    } else {
        reading.done
    }
}

/// The reading of the first `n` characters of `path`: a separator closes what stands
/// before it, every other character continues it.
pub open spec fn read_upto(path: Seq<char>, n: nat) -> Reading
    decreases n,
{
    if n == 0 || n > path.len() {
        Reading { done: Seq::empty(), current: Seq::empty() }
    } else {
        let before = read_upto(path, (n - 1) as nat);
        if is_separator(path[n - 1]) {
            Reading { done: closed(before), current: Seq::empty() }
        } else {
            Reading { done: before.done, current: before.current.push(path[n - 1]) }
        }
    }
}

/// The segments of `path`, in order: what stands between its separators, without what is
/// empty or a single dot.
pub open spec fn segments(path: Seq<char>) -> Seq<Seq<char>> {
    closed(read_upto(path, path.len()))
}

/// Whether `path` begins at the root: its first character is a separator.
pub open spec fn is_rooted(path: Seq<char>) -> bool {
    path.len() > 0 && is_separator(path[0])
}

/// Whether `path` is the directory with the segments `dir`, or lies below it. The
/// directory begins at the root or not as `rooted` says, and so must the path.
pub open spec fn at_or_below(rooted: bool, dir: Seq<Seq<char>>, path: Seq<char>) -> bool {
    &&& is_rooted(path) == rooted
    &&& dir.len() <= segments(path).len()
    &&& segments(path).take(dir.len() as int) == dir
}

/// Whether `path` is a directory of the operating system or lies in one.
pub open spec fn spec_is_protected(path: Seq<char>) -> bool {
    ||| at_or_below(true, seq!["System"@], path)
    ||| at_or_below(true, seq!["Library"@], path)
    ||| at_or_below(true, seq!["usr"@], path)
    ||| at_or_below(true, seq!["etc"@], path)
    ||| at_or_below(true, seq!["var"@], path)
    ||| at_or_below(false, seq!["C:"@, "Windows"@], path)
    ||| at_or_below(false, seq!["C:"@, "Program Files"@], path)
    ||| at_or_below(false, seq!["C:"@, "Program Files (x86)"@], path)
}

/// Whether `piece` is a segment.
fn counts(piece: &Vec<char>) -> (r: bool)
    ensures
        r == is_segment(piece@),
{
    if piece.len() == 0 {
        return false;
    }
    if piece.len() == 1 && piece[0] == '.' {
        assert(piece@ =~= seq!['.']);
        return false;
    }
    assert(piece@ != seq!['.']) by {
        if piece@ == seq!['.'] {
            assert(piece@.len() == 1 && piece@[0] == '.');
        }
    }
    true
}

/// The segments of `path`.
pub fn segments_of(path: &Vec<char>) -> (out: Vec<Vec<char>>)
    ensures
        crate::treetext::lines_view(out@) == segments(path@),
{
    let mut done: Vec<Vec<char>> = Vec::new();
    let mut current: Vec<char> = Vec::new();
    let mut i: usize = 0;
    assert(crate::treetext::lines_view(done@) =~= Seq::<Seq<char>>::empty());
    while i < path.len()
        invariant
            i <= path.len(),
            crate::treetext::lines_view(done@) == read_upto(path@, i as nat).done,
            current@ == read_upto(path@, i as nat).current,
        decreases path.len() - i,
    {
        let c = path[i];
        if c == '/' || c == '\\' {
            if counts(&current) {
                let ghost before = crate::treetext::lines_view(done@);
                done.push(current);
                assert(crate::treetext::lines_view(done@) =~= before.push(
                    read_upto(path@, i as nat).current,
                ));
            }
            current = Vec::new();
        } else {
            current.push(c);
        }
        i = i + 1;
    }
    if counts(&current) {
        let ghost before = crate::treetext::lines_view(done@);
        done.push(current);
        assert(crate::treetext::lines_view(done@) =~= before.push(
            read_upto(path@, path@.len()).current,
        ));
    }
    done
}

/// Whether the path with the characters `path` and the segments `found` is the directory
/// with the segments `dir`, or lies below it.
fn is_at_or_below(rooted: bool, dir: &Vec<Vec<char>>, path: &Vec<char>, found: &Vec<Vec<char>>) -> (r:
    bool)
    requires
        crate::treetext::lines_view(found@) == segments(path@),
    ensures
        r == at_or_below(rooted, crate::treetext::lines_view(dir@), path@),
{
    let ghost dv = crate::treetext::lines_view(dir@);
    let ghost fv = crate::treetext::lines_view(found@);
    let begins = path.len() > 0 && (path[0] == '/' || path[0] == '\\');
    if begins != rooted {
        return false;
    }
    if dir.len() > found.len() {
        return false;
    }
    let mut i: usize = 0;
    while i < dir.len()
        invariant
            i <= dir.len() <= found.len(),
            dv == crate::treetext::lines_view(dir@),
            fv == crate::treetext::lines_view(found@),
            fv == segments(path@),
            is_rooted(path@) == rooted,
            forall|k: int| 0 <= k < i ==> fv[k] == dv[k],
        decreases dir.len() - i,
    {
        assert(dv[i as int] == dir@[i as int]@ && fv[i as int] == found@[i as int]@);
        if !same_chars(&found[i], &dir[i]) {
            assert(fv.take(dv.len() as int)[i as int] != dv[i as int]);
            return false;
        }
        i = i + 1;
    }
    assert(fv.take(dv.len() as int) =~= dv);
    true
}

/// The directory with the one segment `a`.
fn one(a: &str) -> (dir: Vec<Vec<char>>)
    ensures
        crate::treetext::lines_view(dir@) == seq![a@],
{
    let mut dir: Vec<Vec<char>> = Vec::new();
    dir.push(chars_of(a));
    assert(crate::treetext::lines_view(dir@) =~= seq![a@]);
    dir
}

/// The directory with the two segments `a` and `b`.
fn two(a: &str, b: &str) -> (dir: Vec<Vec<char>>)
    ensures
        crate::treetext::lines_view(dir@) == seq![a@, b@],
{
    let mut dir: Vec<Vec<char>> = Vec::new();
    dir.push(chars_of(a));
    dir.push(chars_of(b));
    assert(crate::treetext::lines_view(dir@) =~= seq![a@, b@]);
    dir
}

/// Whether `path` is a directory of the operating system or lies in one, so that nothing
/// must be changed there.
pub fn is_protected_path(path: &str) -> (r: bool)
    ensures
        r == spec_is_protected(path@),
{
    let p = chars_of(path);
    let found = segments_of(&p);
    is_at_or_below(true, &one("System"), &p, &found) || is_at_or_below(
        true,
        &one("Library"),
        &p,
        &found,
    ) || is_at_or_below(true, &one("usr"), &p, &found) || is_at_or_below(
        true,
        &one("etc"),
        &p,
        &found,
    ) || is_at_or_below(true, &one("var"), &p, &found) || is_at_or_below(
        false,
        &two("C:", "Windows"),
        &p,
        &found,
    ) || is_at_or_below(false, &two("C:", "Program Files"), &p, &found) || is_at_or_below(
        false,
        &two("C:", "Program Files (x86)"),
        &p,
        &found,
    )
}

} // verus!
