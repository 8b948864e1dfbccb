//! Correspondence by structure, for snapshots without identities.
//!
//! Entities that kept their path and kind are paired first. A directory that is left is
//! paired with the directory left in the other snapshot whose children bear the most
//! similar set of names; what lies below two paired directories at the same place comes
//! along with them. A file that is still left is paired with the file whose name is most
//! similar to its own. In doubt nothing is paired: an entity without a partner is deleted
//! and created anew, which a backup can undo, while a wrong pairing could not be told
//! from the intent of the user.

use vstd::prelude::*;
use crate::entity::{entities_view, Entity, EntityView};
use crate::plan::{count_slashes, is_ancestor_path, path_is_above, slash_count};
use crate::resolve::{
    is_modified_matched,
    is_original_matched,
    modified_matched,
    original_matched,
    Match,
};
use crate::text::{chars_of, same_chars, spec_base_name, spec_dir_of, split_path};

verus! {

/// The share of common child names, in percent, from which two directories directly
/// below the root are taken for the same directory.
pub const ROOT_LEVEL_DIRECTORY_PERCENT: usize = 30;

/// The share of common child names, in percent, from which two directories deeper in the
/// tree are taken for the same directory.
pub const NESTED_DIRECTORY_PERCENT: usize = 70;

/// The similarity of names, in percent, that two files in the same directory must exceed
/// to be taken for the same file.
pub const SAME_PARENT_FILE_PERCENT: usize = 30;

/// The similarity of names, in percent, that two files in different directories must
/// exceed to be taken for the same file.
pub const CROSS_PARENT_FILE_PERCENT: usize = 60;

/// A similarity: `num` out of `den`.
#[derive(Clone, Copy, Debug, PartialEq, Eq, Structural)]
pub struct Similarity {
    pub num: usize,
    pub den: usize,
}

impl Similarity {
    /// Whether the similarity is at least `percent` in a hundred. A similarity out of
    /// nothing is not.
    pub open spec fn at_least(self, percent: nat) -> bool {
        self.den > 0 && self.num * 100 >= percent * self.den
    }

    /// Whether the similarity is more than `percent` in a hundred. A similarity out of
    /// nothing is not.
    pub open spec fn exceeds(self, percent: nat) -> bool {
        self.den > 0 && self.num * 100 > percent * self.den
    }

    /// Whether the similarity is greater than `other`, as a fraction.
    pub open spec fn greater_than(self, other: Similarity) -> bool {
        self.num * other.den > other.num * self.den
    }

    /// Whether the similarity is at least `percent` in a hundred.
    pub fn reaches(&self, percent: usize) -> (b: bool)
        ensures
            b == self.at_least(percent as nat),
    {
        assert(self.num * 100 <= u128::MAX && percent * self.den <= u128::MAX) by (nonlinear_arith)
            requires
                self.num <= u64::MAX,
                self.den <= u64::MAX,
                percent <= u64::MAX,
        ;
        self.den > 0 && (self.num as u128) * 100 >= (percent as u128) * (self.den as u128)
    }

    /// Whether the similarity is more than `percent` in a hundred.
    pub fn passes(&self, percent: usize) -> (b: bool)
        ensures
            b == self.exceeds(percent as nat),
    {
        assert(self.num * 100 <= u128::MAX && percent * self.den <= u128::MAX) by (nonlinear_arith)
            requires
                self.num <= u64::MAX,
                self.den <= u64::MAX,
                percent <= u64::MAX,
        ;
        self.den > 0 && (self.num as u128) * 100 > (percent as u128) * (self.den as u128)
    }

    /// Whether the similarity is greater than `other`.
    pub fn beats(&self, other: &Similarity) -> (b: bool)
        ensures
            b == self.greater_than(*other),
    {
        assert(self.num * other.den <= u128::MAX && other.num * self.den <= u128::MAX)
            by (nonlinear_arith)
            requires
                self.num <= u64::MAX,
                self.den <= u64::MAX,
                other.num <= u64::MAX,
                other.den <= u64::MAX,
        ;
        (self.num as u128) * (other.den as u128) > (other.num as u128) * (self.den as u128)
    }
}

/// The names of those of the first `n` entities of `snapshot` that lie directly in the
/// directory at `dir`, in their order. The root lies in no directory.
pub open spec fn names_in(snapshot: Seq<EntityView>, dir: Seq<char>, n: nat) -> Seq<Seq<char>>
    decreases n,
{
    if n == 0 || n > snapshot.len() {
        Seq::empty()
    } else {
        let before = names_in(snapshot, dir, (n - 1) as nat);
        if n - 1 > 0 && spec_dir_of(snapshot[n - 1].path) == dir {
            before.push(spec_base_name(snapshot[n - 1].path))
        } else {
            before
        }
    }
}

/// How many of the first `n` names of `a` occur in `b`.
pub open spec fn shared(a: Seq<Seq<char>>, b: Seq<Seq<char>>, n: nat) -> nat
    decreases n,
{
    if n == 0 || n > a.len() {
        0
    } else {
        shared(a, b, (n - 1) as nat) + if b.contains(a[n - 1]) {
            1nat
        } else {
            0nat
        }
    }
}

/// No more names are shared than were looked at.
pub proof fn lemma_shared_bound(a: Seq<Seq<char>>, b: Seq<Seq<char>>, n: nat)
    requires
        n <= a.len(),
    ensures
        shared(a, b, n) <= n,
    decreases n,
{
    if n > 0 {
        lemma_shared_bound(a, b, (n - 1) as nat);
    }
}

/// The Jaccard similarity of two lists of names without repetitions: the number of names
/// that are in both, out of the number of names that are in either. A number of names
/// beyond what the machine can count is taken for the largest it can count.
pub open spec fn jaccard(a: Seq<Seq<char>>, b: Seq<Seq<char>>) -> Similarity {
    let common = shared(a, b, a.len());
    let either = a.len() + b.len() - common;
    Similarity {
        num: common as usize,
        den: if either <= usize::MAX {
            either as usize
        } else {
            usize::MAX
        },
    }
}

/// The names of the entities of `snapshot` that lie directly in the directory at `dir`.
pub fn child_names(snapshot: &Vec<Entity>, dir: &Vec<char>) -> (names: Vec<Vec<char>>)
    ensures
        crate::treetext::lines_view(names@) == names_in(
            entities_view(snapshot@),
            dir@,
            snapshot@.len(),
        ),
{
    let ghost s = entities_view(snapshot@);
    let mut names: Vec<Vec<char>> = Vec::new();
    assert(crate::treetext::lines_view(names@) =~= Seq::<Seq<char>>::empty());
    let mut c: usize = 0;
    while c < snapshot.len()
        invariant
            c <= snapshot.len(),
            s == entities_view(snapshot@),
            crate::treetext::lines_view(names@) == names_in(s, dir@, c as nat),
        decreases snapshot.len() - c,
    {
        if c > 0 {
            let (d, base) = split_path(snapshot[c].path.as_str());
            if same_chars(&d, dir) {
                let ghost before = crate::treetext::lines_view(names@);
                names.push(base);
                assert(crate::treetext::lines_view(names@) =~= before.push(
                    spec_base_name(s[c as int].path),
                ));
            }
        }
        c = c + 1;
    }
    names
}

/// Whether `name` is among `names`.
pub fn has_name(names: &Vec<Vec<char>>, name: &Vec<char>) -> (r: bool)
    ensures
        r == crate::treetext::lines_view(names@).contains(name@),
{
    let ghost views = crate::treetext::lines_view(names@);
    let mut i: usize = 0;
    while i < names.len()
        invariant
            i <= names.len(),
            views == crate::treetext::lines_view(names@),
            forall|k: int| 0 <= k < i ==> views[k] != name@,
        decreases names.len() - i,
    {
        if same_chars(&names[i], name) {
            assert(views[i as int] == name@);
            return true;
        }
        i = i + 1;
    }
    false
}

/// The Jaccard similarity of two lists of names.
pub fn jaccard_of(a: &Vec<Vec<char>>, b: &Vec<Vec<char>>) -> (r: Similarity)
    ensures
        r == jaccard(crate::treetext::lines_view(a@), crate::treetext::lines_view(b@)),
{
    let ghost av = crate::treetext::lines_view(a@);
    let ghost bv = crate::treetext::lines_view(b@);
    let mut common: usize = 0;
    let mut i: usize = 0;
    while i < a.len()
        invariant
            i <= a.len(),
            av == crate::treetext::lines_view(a@),
            bv == crate::treetext::lines_view(b@),
            common == shared(av, bv, i as nat),
            common <= i,
        decreases a.len() - i,
    {
        if has_name(b, &a[i]) {
            common = common + 1;
        }
        i = i + 1;
    }
    let only_a = a.len() - common;
    let either = if only_a > usize::MAX - b.len() {
        usize::MAX
    } else {
        only_a + b.len()
    };
    Similarity { num: common, den: either }
}

/// How far `a` and `b` agree from position `i` on, given that they agree before it: the
/// length of their longest common beginning.
pub open spec fn prefix_len(a: Seq<char>, b: Seq<char>, i: nat) -> nat
    decreases a.len() - i,
{
    if i < a.len() && i < b.len() && a[i as int] == b[i as int] {
        prefix_len(a, b, i + 1)
    } else {
        i
    }
}

/// How far `a` and `b` agree at their ends without reaching into their first `p`
/// characters, given that their last `k` characters agree.
pub open spec fn suffix_len(a: Seq<char>, b: Seq<char>, p: nat, k: nat) -> nat
    decreases a.len() - k,
{
    if p + k < a.len() && p + k < b.len() && a[a.len() - 1 - k] == b[b.len() - 1 - k] {
        suffix_len(a, b, p, k + 1)
    } else {
        k
    }
}

/// The similarity of two names: the length of their common beginning and of the common
/// end of what follows it, out of the length of the longer name. Equal names are wholly
/// similar.
pub open spec fn name_similarity(a: Seq<char>, b: Seq<char>) -> Similarity {
    let p = prefix_len(a, b, 0);
    let s = suffix_len(a, b, p, 0);
    Similarity {
        num: (p + s) as usize,
        den: (if a.len() >= b.len() {
            a.len()
        } else {
            b.len()
        }) as usize,
    }
}

/// A name is wholly similar to itself.
pub proof fn lemma_same_name_similarity(a: Seq<char>)
    requires
        a.len() <= usize::MAX,
    ensures
        name_similarity(a, a) == (Similarity { num: a.len() as usize, den: a.len() as usize }),
{
    lemma_prefix_whole(a, 0);
}

/// A name agrees with itself to its end.
pub proof fn lemma_prefix_whole(a: Seq<char>, i: nat)
    requires
        i <= a.len(),
    ensures
        prefix_len(a, a, i) == a.len(),
    decreases a.len() - i,
{
    if i < a.len() {
        lemma_prefix_whole(a, i + 1);
    }
}

/// The similarity of two names.
pub fn similarity_of_names(a: &Vec<char>, b: &Vec<char>) -> (r: Similarity)
    ensures
        r == name_similarity(a@, b@),
{
    let mut p: usize = 0;
    while p < a.len() && p < b.len() && a[p] == b[p]
        invariant
            p <= a.len(),
            p <= b.len(),
            prefix_len(a@, b@, 0) == prefix_len(a@, b@, p as nat),
        decreases a.len() - p,
    {
        p = p + 1;
    }
    let mut k: usize = 0;
    while k < a.len() - p && k < b.len() - p && a[a.len() - 1 - k] == b[b.len() - 1 - k]
        invariant
            p <= a.len(),
            p <= b.len(),
            k <= a.len() - p,
            k <= b.len() - p,
            suffix_len(a@, b@, p as nat, 0) == suffix_len(a@, b@, p as nat, k as nat),
        decreases a.len() - k,
    {
        k = k + 1;
    }
    let longer = if a.len() >= b.len() {
        a.len()
    } else {
        b.len()
    };
    Similarity { num: p + k, den: longer }
}

/// The positions of one side of `matches` that have a partner: those of the original
/// snapshot for `original_side`, those of the modified one otherwise.
pub open spec fn is_taken(matches: Seq<Match>, original_side: bool, i: int) -> bool {
    if original_side {
        original_matched(matches, i)
    } else {
        modified_matched(matches, i)
    }
}

/// The first position at or after `from` of an entity of `snapshot` that has the given
/// path and kind and no partner yet.
pub open spec fn free_at(
    snapshot: Seq<EntityView>,
    matches: Seq<Match>,
    original_side: bool,
    path: Seq<char>,
    is_dir: bool,
    from: nat,
) -> Option<nat>
    decreases snapshot.len() - from,
{
    if from >= snapshot.len() {
        None
    } else if snapshot[from as int].path == path && snapshot[from as int].is_dir == is_dir
        && !is_taken(matches, original_side, from as int) {
        Some(from)
    } else {
        free_at(snapshot, matches, original_side, path, is_dir, from + 1)
    }
}

/// What `free_at` finds lies within the snapshot, at or after `from`, has the path and
/// the kind, and is free.
pub proof fn lemma_free_at(
    snapshot: Seq<EntityView>,
    matches: Seq<Match>,
    original_side: bool,
    path: Seq<char>,
    is_dir: bool,
    from: nat,
)
    ensures
        free_at(snapshot, matches, original_side, path, is_dir, from) matches Some(i) ==> {
            &&& from <= i < snapshot.len()
            &&& snapshot[i as int].path == path
            &&& snapshot[i as int].is_dir == is_dir
            &&& !is_taken(matches, original_side, i as int)
        },
    decreases snapshot.len() - from,
{
    if from < snapshot.len() && !(snapshot[from as int].path == path && snapshot[from as int].is_dir
        == is_dir && !is_taken(matches, original_side, from as int)) {
        lemma_free_at(snapshot, matches, original_side, path, is_dir, from + 1);
    }
}

/// Finds the first free entity of `snapshot` below the root with the given path and kind.
pub fn find_free(
    snapshot: &Vec<Entity>,
    matches: &Vec<Match>,
    original_side: bool,
    path: &Vec<char>,
    is_dir: bool,
) -> (r: Option<usize>)
    ensures
        r is Some <==> free_at(
            entities_view(snapshot@),
            matches@,
            original_side,
            path@,
            is_dir,
            1,
        ) is Some,
        r matches Some(i) ==> free_at(
            entities_view(snapshot@),
            matches@,
            original_side,
            path@,
            is_dir,
            1,
        ) == Some(i as nat),
{
    let ghost s = entities_view(snapshot@);
    let mut i: usize = 1;
    while i < snapshot.len()
        invariant
            1 <= i,
            s == entities_view(snapshot@),
            free_at(s, matches@, original_side, path@, is_dir, 1) == free_at(
                s,
                matches@,
                original_side,
                path@,
                is_dir,
                i as nat,
            ),
        decreases snapshot.len() - i,
    {
        if snapshot[i].is_dir == is_dir {
            let p = chars_of(snapshot[i].path.as_str());
            if same_chars(&p, path) {
                let taken = if original_side {
                    is_original_matched(matches, i)
                } else {
                    is_modified_matched(matches, i)
                };
                if !taken {
                    return Some(i);
                }
            }
        }
        i = i + 1;
    }
    None
}

/// The pairs of entities that kept their path and kind, for the first `n` modified
/// entities: the two roots, and below the root every modified entity with the first
/// original entity of its path and kind that has no partner yet.
pub open spec fn exact_phase(original: Seq<EntityView>, modified: Seq<EntityView>, n: nat) -> Seq<
    Match,
>
    decreases n,
{
    if n == 0 {
        Seq::empty()
    } else {
        let before = exact_phase(original, modified, (n - 1) as nat);
        let j = (n - 1) as nat;
        if j >= modified.len() || original.len() == 0 {
            before
        } else if j == 0 {
            before.push(Match { original: 0, modified: 0, inherited: false })
        } else {
            match free_at(
                original,
                before,
                true,
                modified[j as int].path,
                modified[j as int].is_dir,
                1,
            ) {
                Some(i) => before.push(
                    Match { original: i as usize, modified: j as usize, inherited: false },
                ),
                None => before,
            }
        }
    }
}

/// The share of common child names, in percent, that two directories at these paths must
/// reach: the lower bar where both lie directly below the root, the higher one elsewhere.
pub open spec fn directory_percent(original_path: Seq<char>, modified_path: Seq<char>) -> nat {
    if count_slashes(original_path) == 0 && count_slashes(modified_path) == 0 {
        ROOT_LEVEL_DIRECTORY_PERCENT as nat
    } else {
        NESTED_DIRECTORY_PERCENT as nat
    }
}

/// The similarity of the original directory at `i` and the modified directory at `j`: the
/// Jaccard similarity of the names of their children.
pub open spec fn directory_similarity(
    original: Seq<EntityView>,
    modified: Seq<EntityView>,
    i: int,
    j: int,
) -> Similarity {
    jaccard(
        names_in(original, original[i].path, original.len()),
        names_in(modified, modified[j].path, modified.len()),
    )
}

/// Whether the modified entity at `j` can be the partner of the original directory at
/// `i`: it is a directory below the root, has no partner yet, and is similar enough.
pub open spec fn directory_candidate(
    original: Seq<EntityView>,
    modified: Seq<EntityView>,
    matches: Seq<Match>,
    i: int,
    j: int,
) -> bool {
    &&& 0 < j < modified.len()
    &&& modified[j].is_dir
    &&& !modified_matched(matches, j)
    &&& directory_similarity(original, modified, i, j).at_least(
        directory_percent(original[i].path, modified[j].path),
    )
}

/// The best partner for the original directory at `i` among the first `n` modified
/// entities: the candidate of the greatest similarity, the first of them where several
/// are equally similar.
pub open spec fn best_directory(
    original: Seq<EntityView>,
    modified: Seq<EntityView>,
    matches: Seq<Match>,
    i: int,
    n: nat,
) -> Option<nat>
    decreases n,
{
    if n == 0 {
        None
    } else {
        let before = best_directory(original, modified, matches, i, (n - 1) as nat);
        let j = (n - 1) as nat;
        if directory_candidate(original, modified, matches, i, j as int) && (before is None
            || directory_similarity(original, modified, i, j as int).greater_than(
            directory_similarity(original, modified, i, before->0 as int),
        )) {
            Some(j)
        } else {
            before
        }
    }
}

/// The place in the modified snapshot of what lies at `path` below the original directory
/// at `from`, once that directory is at `to`.
pub open spec fn moved_along(from: Seq<char>, to: Seq<char>, path: Seq<char>) -> Seq<char> {
    to + path.subrange(from.len() as int, path.len() as int)
}

/// The matches after what lies below the original directory at `i` has come along with
/// it to the modified directory at `j`, for the first `n` original entities: each entity
/// below the one that has no partner yet is paired, as inherited, with the first free
/// modified entity of its kind at the same place below the other.
pub open spec fn inherit(
    original: Seq<EntityView>,
    modified: Seq<EntityView>,
    matches: Seq<Match>,
    i: int,
    j: int,
    n: nat,
) -> Seq<Match>
    decreases n,
{
    if n == 0 {
        matches
    } else {
        let before = inherit(original, modified, matches, i, j, (n - 1) as nat);
        let x = n - 1;
        if 0 < x < original.len() && !original_matched(before, x) && is_ancestor_path(
            original[i].path,
            original[x].path,
        ) {
            match free_at(
                modified,
                before,
                false,
                moved_along(original[i].path, modified[j].path, original[x].path),
                original[x].is_dir,
                1,
            ) {
                Some(y) => before.push(
                    Match { original: x as usize, modified: y as usize, inherited: true },
                ),
                None => before,
            }
        } else {
            before
        }
    }
}

/// The matches after the directories among the first `n` original entities have been
/// dealt with: each one below the root that has no partner yet gets its best partner, if
/// it has a candidate at all, and what lies below it comes along.
pub open spec fn directory_phase(
    original: Seq<EntityView>,
    modified: Seq<EntityView>,
    start: Seq<Match>,
    n: nat,
) -> Seq<Match>
    decreases n,
{
    if n == 0 {
        start
    } else {
        let before = directory_phase(original, modified, start, (n - 1) as nat);
        let i = n - 1;
        if 0 < i < original.len() && original[i].is_dir && !original_matched(before, i) {
            match best_directory(original, modified, before, i, modified.len()) {
                Some(j) => inherit(
                    original,
                    modified,
                    before.push(
                        Match { original: i as usize, modified: j as usize, inherited: false },
                    ),
                    i,
                    j as int,
                    original.len(),
                ),
                None => before,
            }
        } else {
            before
        }
    }
}

/// Whether the original entity at `i` and the modified entity at `j` lie in the same
/// directory: in directories of the same path, or in two directories that are paired.
pub open spec fn same_parent(
    original: Seq<EntityView>,
    modified: Seq<EntityView>,
    matches: Seq<Match>,
    i: int,
    j: int,
) -> bool {
    ||| spec_dir_of(original[i].path) == spec_dir_of(modified[j].path)
    ||| crate::resolve::parents_paired(original, modified, matches, i, j)
}

/// The similarity of names, in percent, that the original file at `i` and the modified
/// file at `j` must exceed: the lower bar in the same directory, the higher one across
/// directories.
pub open spec fn file_percent(
    original: Seq<EntityView>,
    modified: Seq<EntityView>,
    matches: Seq<Match>,
    i: int,
    j: int,
) -> nat {
    if same_parent(original, modified, matches, i, j) {
        SAME_PARENT_FILE_PERCENT as nat
    } else {
        CROSS_PARENT_FILE_PERCENT as nat
    }
}

/// The similarity of the names of the original entity at `i` and the modified one at `j`.
pub open spec fn file_similarity(
    original: Seq<EntityView>,
    modified: Seq<EntityView>,
    i: int,
    j: int,
) -> Similarity {
    name_similarity(spec_base_name(original[i].path), spec_base_name(modified[j].path))
}

/// Whether the modified entity at `j` can be the partner of the original file at `i`: it
/// is a file, has no partner yet, and its name is similar enough.
pub open spec fn file_candidate(
    original: Seq<EntityView>,
    modified: Seq<EntityView>,
    matches: Seq<Match>,
    i: int,
    j: int,
) -> bool {
    &&& 0 < j < modified.len()
    &&& !modified[j].is_dir
    &&& !modified_matched(matches, j)
    &&& file_similarity(original, modified, i, j).exceeds(
        file_percent(original, modified, matches, i, j),
    )
}

/// The best partner for the original file at `i` among the first `n` modified entities:
/// the candidate of the greatest similarity, the first of them where several are equally
/// similar.
pub open spec fn best_file(
    original: Seq<EntityView>,
    modified: Seq<EntityView>,
    matches: Seq<Match>,
    i: int,
    n: nat,
) -> Option<nat>
    decreases n,
{
    if n == 0 {
        None
    } else {
        let before = best_file(original, modified, matches, i, (n - 1) as nat);
        let j = (n - 1) as nat;
        if file_candidate(original, modified, matches, i, j as int) && (before is None
            || file_similarity(original, modified, i, j as int).greater_than(
            file_similarity(original, modified, i, before->0 as int),
        )) {
            Some(j)
        } else {
            before
        }
    }
}

/// The matches after the files among the first `n` original entities have been dealt
/// with: each one that has no partner yet gets its best partner, if it has a candidate at
/// all.
pub open spec fn file_phase(
    original: Seq<EntityView>,
    modified: Seq<EntityView>,
    start: Seq<Match>,
    n: nat,
) -> Seq<Match>
    decreases n,
{
    if n == 0 {
        start
    } else {
        let before = file_phase(original, modified, start, (n - 1) as nat);
        let i = n - 1;
        if 0 < i < original.len() && !original[i].is_dir && !original_matched(before, i) {
            match best_file(original, modified, before, i, modified.len()) {
                Some(j) => before.push(
                    Match { original: i as usize, modified: j as usize, inherited: false },
                ),
                None => before,
            }
        } else {
            before
        }
    }
}

/// The correspondence by structure of two snapshots: the pairs that kept their place,
/// then the directories with what comes along, then the files.
pub open spec fn structural_matches(original: Seq<EntityView>, modified: Seq<EntityView>) -> Seq<
    Match,
> {
    file_phase(
        original,
        modified,
        directory_phase(
            original,
            modified,
            exact_phase(original, modified, modified.len()),
            original.len(),
        ),
        original.len(),
    )
}

/// Pairs the entities that kept their path and kind.
pub fn pair_unchanged(original: &Vec<Entity>, modified: &Vec<Entity>) -> (matches: Vec<Match>)
    ensures
        matches@ == exact_phase(
            entities_view(original@),
            entities_view(modified@),
            modified@.len(),
        ),
{
    let ghost o = entities_view(original@);
    let ghost m = entities_view(modified@);
    let mut matches: Vec<Match> = Vec::new();
    let mut j: usize = 0;
    while j < modified.len()
        invariant
            j <= modified.len(),
            o == entities_view(original@),
            m == entities_view(modified@),
            matches@ == exact_phase(o, m, j as nat),
        decreases modified.len() - j,
    {
        if original.len() > 0 {
            if j == 0 {
                matches.push(Match { original: 0, modified: 0, inherited: false });
            } else {
                let path = chars_of(modified[j].path.as_str());
                match find_free(original, &matches, true, &path, modified[j].is_dir) {
                    Some(i) => {
                        matches.push(Match { original: i, modified: j, inherited: false });
                    },
                    None => {},
                }
            }
        }
        j = j + 1;
    }
    matches
}

/// The best partner for the original directory at `i`, if it has a candidate.
pub fn pick_directory(
    original: &Vec<Entity>,
    modified: &Vec<Entity>,
    matches: &Vec<Match>,
    i: usize,
) -> (r: Option<usize>)
    requires
        i < original.len(),
    ensures
        r is Some <==> best_directory(
            entities_view(original@),
            entities_view(modified@),
            matches@,
            i as int,
            modified@.len(),
        ) is Some,
        r matches Some(j) ==> j < modified.len() && best_directory(
            entities_view(original@),
            entities_view(modified@),
            matches@,
            i as int,
            modified@.len(),
        ) == Some(j as nat),
{
    let ghost o = entities_view(original@);
    let ghost m = entities_view(modified@);
    let here = chars_of(original[i].path.as_str());
    let names = child_names(original, &here);
    let top = slash_count(original[i].path.as_str()) == 0;
    let mut best: Option<usize> = None;
    let mut best_similarity = Similarity { num: 0, den: 0 };
    let mut j: usize = 0;
    while j < modified.len()
        invariant
            j <= modified.len(),
            i < original.len(),
            o == entities_view(original@),
            m == entities_view(modified@),
            here@ == o[i as int].path,
            crate::treetext::lines_view(names@) == names_in(o, o[i as int].path, o.len()),
            top == (count_slashes(o[i as int].path) == 0),
            best is Some <==> best_directory(o, m, matches@, i as int, j as nat) is Some,
            best matches Some(b) ==> b < j && best_directory(o, m, matches@, i as int, j as nat)
                == Some(b as nat) && best_similarity == directory_similarity(
                o,
                m,
                i as int,
                b as int,
            ),
        decreases modified.len() - j,
    {
        if j > 0 && modified[j].is_dir && !is_modified_matched(matches, j) {
            let there = chars_of(modified[j].path.as_str());
            let other = child_names(modified, &there);
            let similarity = jaccard_of(&names, &other);
            let percent = if top && slash_count(modified[j].path.as_str()) == 0 {
                ROOT_LEVEL_DIRECTORY_PERCENT
            } else {
                NESTED_DIRECTORY_PERCENT
            };
            if similarity.reaches(percent) {
                let better = match best {
                    None => true,
                    Some(_) => similarity.beats(&best_similarity),
                };
                if better {
                    best = Some(j);
                    best_similarity = similarity;
                }
            }
        }
        j = j + 1;
    }
    best
}

/// The place of what lies at `path` below the directory at `from`, once that directory is
/// at `to`.
pub fn place_moved_along(from: &Vec<char>, to: &Vec<char>, path: &Vec<char>) -> (r: Vec<char>)
    requires
        from.len() <= path.len(),
    ensures
        r@ == moved_along(from@, to@, path@),
{
    let mut r = crate::text::chars_between(to, 0, to.len());
    assert(to@.subrange(0, to.len() as int) =~= to@);
    let mut k: usize = from.len();
    while k < path.len()
        invariant
            from.len() <= k <= path.len(),
            r@ == to@ + path@.subrange(from.len() as int, k as int),
        decreases path.len() - k,
    {
        r.push(path[k]);
        assert(path@.subrange(from.len() as int, k + 1) =~= path@.subrange(
            from.len() as int,
            k as int,
        ).push(path@[k as int]));
        k = k + 1;
    }
    r
}

/// Pairs what lies below the original directory at `i` with what lies at the same place
/// below the modified directory at `j`.
pub fn bring_along(
    original: &Vec<Entity>,
    modified: &Vec<Entity>,
    matches: &mut Vec<Match>,
    i: usize,
    j: usize,
)
    requires
        i < original.len(),
        j < modified.len(),
    ensures
        final(matches)@ == inherit(
            entities_view(original@),
            entities_view(modified@),
            old(matches)@,
            i as int,
            j as int,
            original@.len(),
        ),
{
    let ghost o = entities_view(original@);
    let ghost m = entities_view(modified@);
    let ghost start = matches@;
    let from = chars_of(original[i].path.as_str());
    let to = chars_of(modified[j].path.as_str());
    let mut x: usize = 0;
    while x < original.len()
        invariant
            x <= original.len(),
            i < original.len(),
            j < modified.len(),
            o == entities_view(original@),
            m == entities_view(modified@),
            from@ == o[i as int].path,
            to@ == m[j as int].path,
            matches@ == inherit(o, m, start, i as int, j as int, x as nat),
        decreases original.len() - x,
    {
        if x > 0 && !is_original_matched(matches, x) && path_is_above(
            original[i].path.as_str(),
            original[x].path.as_str(),
        ) {
            let path = chars_of(original[x].path.as_str());
            let target = place_moved_along(&from, &to, &path);
            match find_free(modified, matches, false, &target, original[x].is_dir) {
                Some(y) => {
                    matches.push(Match { original: x, modified: y, inherited: true });
                },
                None => {},
            }
        }
        x = x + 1;
    }
}

/// Pairs the directories that did not keep their place, with what lies below them.
pub fn pair_directories(original: &Vec<Entity>, modified: &Vec<Entity>, matches: &mut Vec<Match>)
    ensures
        final(matches)@ == directory_phase(
            entities_view(original@),
            entities_view(modified@),
            old(matches)@,
            original@.len(),
        ),
{
    let ghost o = entities_view(original@);
    let ghost m = entities_view(modified@);
    let ghost start = matches@;
    let mut i: usize = 0;
    while i < original.len()
        invariant
            i <= original.len(),
            o == entities_view(original@),
            m == entities_view(modified@),
            matches@ == directory_phase(o, m, start, i as nat),
        decreases original.len() - i,
    {
        if i > 0 && original[i].is_dir && !is_original_matched(matches, i) {
            match pick_directory(original, modified, matches, i) {
                Some(j) => {
                    matches.push(Match { original: i, modified: j, inherited: false });
                    bring_along(original, modified, matches, i, j);
                },
                None => {},
            }
        }
        i = i + 1;
    }
}

/// Whether the original entity at `i` and the modified entity at `j` lie in the same
/// directory.
pub fn in_same_directory(
    original: &Vec<Entity>,
    modified: &Vec<Entity>,
    matches: &Vec<Match>,
    i: usize,
    j: usize,
) -> (r: bool)
    requires
        i < original.len(),
        j < modified.len(),
    ensures
        r == same_parent(
            entities_view(original@),
            entities_view(modified@),
            matches@,
            i as int,
            j as int,
        ),
{
    let (dir_o, _) = split_path(original[i].path.as_str());
    let (dir_m, _) = split_path(modified[j].path.as_str());
    if same_chars(&dir_o, &dir_m) {
        return true;
    }
    crate::resolve::are_parents_paired(original, modified, matches, i, j)
}

/// The best partner for the original file at `i`, if it has a candidate.
pub fn pick_file(
    original: &Vec<Entity>,
    modified: &Vec<Entity>,
    matches: &Vec<Match>,
    i: usize,
) -> (r: Option<usize>)
    requires
        i < original.len(),
    ensures
        r is Some <==> best_file(
            entities_view(original@),
            entities_view(modified@),
            matches@,
            i as int,
            modified@.len(),
        ) is Some,
        r matches Some(j) ==> j < modified.len() && best_file(
            entities_view(original@),
            entities_view(modified@),
            matches@,
            i as int,
            modified@.len(),
        ) == Some(j as nat),
{
    let ghost o = entities_view(original@);
    let ghost m = entities_view(modified@);
    let (_, name) = split_path(original[i].path.as_str());
    let mut best: Option<usize> = None;
    let mut best_similarity = Similarity { num: 0, den: 0 };
    let mut j: usize = 0;
    while j < modified.len()
        invariant
            j <= modified.len(),
            i < original.len(),
            o == entities_view(original@),
            m == entities_view(modified@),
            name@ == spec_base_name(o[i as int].path),
            best is Some <==> best_file(o, m, matches@, i as int, j as nat) is Some,
            best matches Some(b) ==> b < j && best_file(o, m, matches@, i as int, j as nat) == Some(
                b as nat,
            ) && best_similarity == file_similarity(o, m, i as int, b as int),
        decreases modified.len() - j,
    {
        if j > 0 && !modified[j].is_dir && !is_modified_matched(matches, j) {
            let (_, other) = split_path(modified[j].path.as_str());
            let similarity = similarity_of_names(&name, &other);
            let percent = if in_same_directory(original, modified, matches, i, j) {
                SAME_PARENT_FILE_PERCENT
            } else {
                CROSS_PARENT_FILE_PERCENT
            };
            if similarity.passes(percent) {
                let better = match best {
                    None => true,
                    Some(_) => similarity.beats(&best_similarity),
                };
                if better {
                    best = Some(j);
                    best_similarity = similarity;
                }
            }
        }
        j = j + 1;
    }
    best
}

/// Pairs the files that have no partner yet.
pub fn pair_files(original: &Vec<Entity>, modified: &Vec<Entity>, matches: &mut Vec<Match>)
    ensures
        final(matches)@ == file_phase(
            entities_view(original@),
            entities_view(modified@),
            old(matches)@,
            original@.len(),
        ),
{
    let ghost o = entities_view(original@);
    let ghost m = entities_view(modified@);
    let ghost start = matches@;
    let mut i: usize = 0;
    while i < original.len()
        invariant
            i <= original.len(),
            o == entities_view(original@),
            m == entities_view(modified@),
            matches@ == file_phase(o, m, start, i as nat),
        decreases original.len() - i,
    {
        if i > 0 && !original[i].is_dir && !is_original_matched(matches, i) {
            match pick_file(original, modified, matches, i) {
                Some(j) => {
                    matches.push(Match { original: i, modified: j, inherited: false });
                },
                None => {},
            }
        }
        i = i + 1;
    }
}

/// Pairs the entities of two snapshots by what they look like, without regard to
/// identities.
///
/// The roots are paired, and every entity that kept its path and kind with itself. Then
/// each original directory that is left, in the order of the snapshot, is paired with the
/// free modified directory whose children share the largest part of their names with its
/// own, provided that part reaches the bar for directories; what lies below the two at the
/// same place is paired as inherited. Then each original file that is left is paired with
/// the free modified file of the most similar name, provided the similarity exceeds the
/// bar for files. Where several candidates are equally good the first one wins.
pub fn resolve_by_structure(original: &Vec<Entity>, modified: &Vec<Entity>) -> (matches: Vec<
    Match,
>)
    ensures
        matches@ == structural_matches(entities_view(original@), entities_view(modified@)),
{
    let mut matches = pair_unchanged(original, modified);
    pair_directories(original, modified, &mut matches);
    pair_files(original, modified, &mut matches);
    matches
}

} // verus!
