//! Laws of the two ways of pairing entities.

use vstd::prelude::*;
use crate::entity::{all_identified, unique_known_ids, EntityView};
use crate::fuzzy::{
    best_directory,
    best_file,
    directory_candidate,
    directory_phase,
    exact_phase,
    file_candidate,
    file_phase,
    free_at,
    inherit,
    jaccard,
    lemma_free_at,
    moved_along,
    shared,
    structural_matches,
};
use crate::resolve::{
    identity_match,
    identity_matches,
    is_correspondence,
    lemma_position_of,
    modified_matched,
    original_matched,
    Match,
};

verus! {

/// The names shared by two lists are the names that are in the sets of both: for a list
/// without repetitions, as many of its first `n` names occur in the other list as the set
/// of those names has in common with the set of the other.
pub proof fn lemma_shared_is_intersection(a: Seq<Seq<char>>, b: Seq<Seq<char>>, n: nat)
    requires
        a.no_duplicates(),
        n <= a.len(),
    ensures
        a.take(n as int).to_set().finite(),
        shared(a, b, n) == a.take(n as int).to_set().intersect(b.to_set()).len(),
    decreases n,
{
    let here = a.take(n as int);
    vstd::seq_lib::seq_to_set_is_finite(here);
    if n == 0 {
        assert(here.to_set() =~= Set::<Seq<char>>::empty());
        assert(here.to_set().intersect(b.to_set()) =~= Set::<Seq<char>>::empty());
    } else {
        let before = a.take(n - 1);
        let x = a[n - 1];
        lemma_shared_is_intersection(a, b, (n - 1) as nat);
        assert(here =~= before.push(x));
        assert(here.to_set() =~= before.to_set().insert(x)) by {
            assert forall|v: Seq<char>| here.to_set().contains(v) <==> before.to_set().insert(
                x,
            ).contains(v) by {
                if here.contains(v) {
                    let i = choose|i: int| 0 <= i < here.len() && here[i] == v;
                    if i < n - 1 {
                        assert(before[i] == v);
                    }
                }
                if before.contains(v) {
                    let i = choose|i: int| 0 <= i < before.len() && before[i] == v;
                    assert(here[i] == v);
                }
                if v == x {
                    assert(here[n - 1] == v);
                }
            }
        }
        assert(!before.to_set().contains(x)) by {
            if before.contains(x) {
                let i = choose|i: int| 0 <= i < before.len() && before[i] == x;
                assert(a[i] == a[n - 1]);
            }
        }
        let common = before.to_set().intersect(b.to_set());
        vstd::set_lib::lemma_len_intersect(before.to_set(), b.to_set());
        if b.contains(x) {
            assert(here.to_set().intersect(b.to_set()) =~= common.insert(x));
        } else {
            assert(here.to_set().intersect(b.to_set()) =~= common);
        }
    }
}

/// For two lists of names without repetitions, the similarity that directories are
/// paired by is the Jaccard similarity of the two sets of names: the size of their
/// intersection out of the size of their union.
pub proof fn lemma_jaccard_of_sets(a: Seq<Seq<char>>, b: Seq<Seq<char>>)
    requires
        a.no_duplicates(),
        b.no_duplicates(),
        a.len() + b.len() <= usize::MAX,
    ensures
        jaccard(a, b).num == a.to_set().intersect(b.to_set()).len(),
        jaccard(a, b).den == a.to_set().union(b.to_set()).len(),
{
    lemma_shared_is_intersection(a, b, a.len());
    crate::fuzzy::lemma_shared_bound(a, b, a.len());
    assert(a.take(a.len() as int) =~= a);
    vstd::seq_lib::seq_to_set_is_finite(a);
    vstd::seq_lib::seq_to_set_is_finite(b);
    a.unique_seq_to_set();
    b.unique_seq_to_set();
    vstd::set_lib::lemma_set_intersect_union_lens(a.to_set(), b.to_set());
}

/// Whether every match of `matches` below the roots pairs two entities of the same kind.
pub open spec fn same_kinds(
    original: Seq<EntityView>,
    modified: Seq<EntityView>,
    matches: Seq<Match>,
) -> bool {
    forall|k: int|
        0 <= k < matches.len() && (#[trigger] matches[k]).original > 0 && matches[k].original
            < original.len() && matches[k].modified < modified.len()
            ==> original[matches[k].original as int].is_dir
            == modified[matches[k].modified as int].is_dir
}

/// A correspondence stays one when a pair of two free entities is added to it.
pub proof fn lemma_push_free(matches: Seq<Match>, n_original: nat, n_modified: nat, pair: Match)
    requires
        is_correspondence(matches, n_original, n_modified),
        pair.original < n_original,
        pair.modified < n_modified,
        !original_matched(matches, pair.original as int),
        !modified_matched(matches, pair.modified as int),
    ensures
        is_correspondence(matches.push(pair), n_original, n_modified),
{
    let next = matches.push(pair);
    assert forall|k: int, l: int| 0 <= k < l < next.len() implies (#[trigger] next[k]).original
        != (#[trigger] next[l]).original && next[k].modified != next[l].modified by {
        if l == matches.len() {
            assert(next[k] == matches[k]);
        }
    }
}

/// The pairs of entities that kept their place form a correspondence of entities of the
/// same kind, and none of them concerns a modified entity that was not looked at yet.
pub proof fn lemma_exact_phase(original: Seq<EntityView>, modified: Seq<EntityView>, n: nat)
    requires
        original.len() <= usize::MAX,
        modified.len() <= usize::MAX,
    ensures
        is_correspondence(exact_phase(original, modified, n), original.len(), modified.len()),
        same_kinds(original, modified, exact_phase(original, modified, n)),
        forall|k: int|
            0 <= k < exact_phase(original, modified, n).len() ==> (#[trigger] exact_phase(
                original,
                modified,
                n,
            )[k]).modified < n,
    decreases n,
{
    if n > 0 {
        let before = exact_phase(original, modified, (n - 1) as nat);
        lemma_exact_phase(original, modified, (n - 1) as nat);
        let j = (n - 1) as nat;
        if j < modified.len() && original.len() > 0 {
            if j == 0 {
                lemma_push_free(
                    before,
                    original.len(),
                    modified.len(),
                    Match { original: 0, modified: 0, inherited: false },
                );
            } else {
                lemma_free_at(
                    original,
                    before,
                    true,
                    modified[j as int].path,
                    modified[j as int].is_dir,
                    1,
                );
                match free_at(
                    original,
                    before,
                    true,
                    modified[j as int].path,
                    modified[j as int].is_dir,
                    1,
                ) {
                    Some(i) => {
                        lemma_push_free(
                            before,
                            original.len(),
                            modified.len(),
                            Match { original: i as usize, modified: j as usize, inherited: false },
                        );
                    },
                    None => {},
                }
            }
        }
    }
}

/// The best partner of a directory is one of its candidates.
pub proof fn lemma_best_directory(
    original: Seq<EntityView>,
    modified: Seq<EntityView>,
    matches: Seq<Match>,
    i: int,
    n: nat,
)
    ensures
        best_directory(original, modified, matches, i, n) matches Some(j) ==> j < n
            && directory_candidate(original, modified, matches, i, j as int),
    decreases n,
{
    if n > 0 {
        lemma_best_directory(original, modified, matches, i, (n - 1) as nat);
    }
}

/// The best partner of a file is one of its candidates.
pub proof fn lemma_best_file(
    original: Seq<EntityView>,
    modified: Seq<EntityView>,
    matches: Seq<Match>,
    i: int,
    n: nat,
)
    ensures
        best_file(original, modified, matches, i, n) matches Some(j) ==> j < n && file_candidate(
            original,
            modified,
            matches,
            i,
            j as int,
        ),
    decreases n,
{
    if n > 0 {
        lemma_best_file(original, modified, matches, i, (n - 1) as nat);
    }
}

/// What comes along with a directory keeps a correspondence of entities of the same kind
/// what it is.
pub proof fn lemma_inherit(
    original: Seq<EntityView>,
    modified: Seq<EntityView>,
    matches: Seq<Match>,
    i: int,
    j: int,
    n: nat,
)
    requires
        original.len() <= usize::MAX,
        modified.len() <= usize::MAX,
        is_correspondence(matches, original.len(), modified.len()),
        same_kinds(original, modified, matches),
    ensures
        is_correspondence(
            inherit(original, modified, matches, i, j, n),
            original.len(),
            modified.len(),
        ),
        same_kinds(original, modified, inherit(original, modified, matches, i, j, n)),
    decreases n,
{
    if n > 0 {
        let before = inherit(original, modified, matches, i, j, (n - 1) as nat);
        lemma_inherit(original, modified, matches, i, j, (n - 1) as nat);
        let x = n - 1;
        if 0 < x < original.len() && !original_matched(before, x) {
            let target = moved_along(original[i].path, modified[j].path, original[x].path);
            lemma_free_at(modified, before, false, target, original[x].is_dir, 1);
            match free_at(modified, before, false, target, original[x].is_dir, 1) {
                Some(y) => {
                    lemma_push_free(
                        before,
                        original.len(),
                        modified.len(),
                        Match { original: x as usize, modified: y as usize, inherited: true },
                    );
                },
                None => {},
            }
        }
    }
}

/// The pairing of directories keeps a correspondence of entities of the same kind what
/// it is.
pub proof fn lemma_directory_phase(
    original: Seq<EntityView>,
    modified: Seq<EntityView>,
    start: Seq<Match>,
    n: nat,
)
    requires
        original.len() <= usize::MAX,
        modified.len() <= usize::MAX,
        is_correspondence(start, original.len(), modified.len()),
        same_kinds(original, modified, start),
    ensures
        is_correspondence(
            directory_phase(original, modified, start, n),
            original.len(),
            modified.len(),
        ),
        same_kinds(original, modified, directory_phase(original, modified, start, n)),
    decreases n,
{
    if n > 0 {
        let before = directory_phase(original, modified, start, (n - 1) as nat);
        lemma_directory_phase(original, modified, start, (n - 1) as nat);
        let i = n - 1;
        if 0 < i < original.len() && original[i].is_dir && !original_matched(before, i) {
            lemma_best_directory(original, modified, before, i, modified.len());
            match best_directory(original, modified, before, i, modified.len()) {
                Some(j) => {
                    let pair = Match {
                        original: i as usize,
                        modified: j as usize,
                        inherited: false,
                    };
                    lemma_push_free(before, original.len(), modified.len(), pair);
                    lemma_inherit(
                        original,
                        modified,
                        before.push(pair),
                        i,
                        j as int,
                        original.len(),
                    );
                },
                None => {},
            }
        }
    }
}

/// The pairing of files keeps a correspondence of entities of the same kind what it is.
pub proof fn lemma_file_phase(
    original: Seq<EntityView>,
    modified: Seq<EntityView>,
    start: Seq<Match>,
    n: nat,
)
    requires
        original.len() <= usize::MAX,
        modified.len() <= usize::MAX,
        is_correspondence(start, original.len(), modified.len()),
        same_kinds(original, modified, start),
    ensures
        is_correspondence(file_phase(original, modified, start, n), original.len(), modified.len()),
        same_kinds(original, modified, file_phase(original, modified, start, n)),
    decreases n,
{
    if n > 0 {
        let before = file_phase(original, modified, start, (n - 1) as nat);
        lemma_file_phase(original, modified, start, (n - 1) as nat);
        let i = n - 1;
        if 0 < i < original.len() && !original[i].is_dir && !original_matched(before, i) {
            lemma_best_file(original, modified, before, i, modified.len());
            match best_file(original, modified, before, i, modified.len()) {
                Some(j) => {
                    lemma_push_free(
                        before,
                        original.len(),
                        modified.len(),
                        Match { original: i as usize, modified: j as usize, inherited: false },
                    );
                },
                None => {},
            }
        }
    }
}

/// Pairing by structure yields a correspondence: no entity of either snapshot has two
/// partners, and below the roots a directory is only ever paired with a directory and a
/// file with a file.
pub proof fn lemma_structural_is_correspondence(
    original: Seq<EntityView>,
    modified: Seq<EntityView>,
)
    requires
        original.len() <= usize::MAX,
        modified.len() <= usize::MAX,
    ensures
        is_correspondence(
            structural_matches(original, modified),
            original.len(),
            modified.len(),
        ),
        same_kinds(original, modified, structural_matches(original, modified)),
{
    lemma_exact_phase(original, modified, modified.len());
    let exact = exact_phase(original, modified, modified.len());
    lemma_directory_phase(original, modified, exact, original.len());
    let dirs = directory_phase(original, modified, exact, original.len());
    lemma_file_phase(original, modified, dirs, original.len());
}

/// Pairing by identity yields a correspondence where every original entity carries an
/// identity and no identity occurs twice in either snapshot. Below the roots it pairs
/// entities of the same identity and kind, and only those.
pub proof fn lemma_identity_is_correspondence(
    original: Seq<EntityView>,
    modified: Seq<EntityView>,
    n: nat,
)
    requires
        original.len() <= usize::MAX,
        modified.len() <= usize::MAX,
        all_identified(original),
        unique_known_ids(original),
        unique_known_ids(modified),
    ensures
        is_correspondence(
            identity_matches(original, modified, n),
            original.len(),
            modified.len(),
        ),
        same_kinds(original, modified, identity_matches(original, modified, n)),
        forall|k: int|
            0 <= k < identity_matches(original, modified, n).len() ==> {
                let pair = #[trigger] identity_matches(original, modified, n)[k];
                &&& pair.modified < n
                &&& pair.modified > 0 ==> pair.original > 0 && original[pair.original as int].id
                    == modified[pair.modified as int].id
                &&& pair.modified == 0 ==> pair.original == 0
            },
    decreases n,
{
    if n > 0 {
        let before = identity_matches(original, modified, (n - 1) as nat);
        lemma_identity_is_correspondence(original, modified, (n - 1) as nat);
        let j = (n - 1) as nat;
        match identity_match(original, modified, before, j) {
            Some(pair) => {
                if j > 0 {
                    lemma_position_of(original, modified[j as int].id, 1);
                }
                assert(!modified_matched(before, pair.modified as int));
                assert(!original_matched(before, pair.original as int)) by {
                    if original_matched(before, pair.original as int) {
                        let k = choose|k: int|
                            0 <= k < before.len() && (#[trigger] before[k]).original
                                == pair.original;
                        assert(modified[before[k].modified as int].id == modified[j as int].id);
                        assert(modified[j as int].id.len() > 0);
                    }
                }
                lemma_push_free(before, original.len(), modified.len(), pair);
            },
            None => {},
        }
    }
}

/// Whether the pair `pair` is one that pairing by structure may make: the two roots; or
/// two entities of the same path and kind; or an entity and the one at the same place
/// below two paired directories, marked as inherited; or two directories whose children
/// share enough of their names; or two files whose names are similar enough.
pub open spec fn justified(original: Seq<EntityView>, modified: Seq<EntityView>, pair: Match) -> bool {
    let o = original[pair.original as int];
    let m = modified[pair.modified as int];
    ||| pair.original == 0 && pair.modified == 0
    ||| o.path == m.path && o.is_dir == m.is_dir
    ||| pair.inherited && o.is_dir == m.is_dir
    ||| o.is_dir && m.is_dir && crate::fuzzy::directory_similarity(
        original,
        modified,
        pair.original as int,
        pair.modified as int,
    ).at_least(crate::fuzzy::directory_percent(o.path, m.path))
    ||| !o.is_dir && !m.is_dir && crate::fuzzy::file_similarity(
        original,
        modified,
        pair.original as int,
        pair.modified as int,
    ).exceeds(crate::fuzzy::SAME_PARENT_FILE_PERCENT as nat)
}

/// Whether every pair of `matches` is justified.
pub open spec fn all_justified(
    original: Seq<EntityView>,
    modified: Seq<EntityView>,
    matches: Seq<Match>,
) -> bool {
    forall|k: int| 0 <= k < matches.len() ==> justified(original, modified, #[trigger] matches[k])
}

/// What comes along with a directory is justified.
pub proof fn lemma_inherit_justified(
    original: Seq<EntityView>,
    modified: Seq<EntityView>,
    matches: Seq<Match>,
    i: int,
    j: int,
    n: nat,
)
    requires
        original.len() <= usize::MAX,
        modified.len() <= usize::MAX,
        all_justified(original, modified, matches),
    ensures
        all_justified(original, modified, inherit(original, modified, matches, i, j, n)),
    decreases n,
{
    if n > 0 {
        let before = inherit(original, modified, matches, i, j, (n - 1) as nat);
        lemma_inherit_justified(original, modified, matches, i, j, (n - 1) as nat);
        let x = n - 1;
        if 0 < x < original.len() && !original_matched(before, x) {
            let target = moved_along(original[i].path, modified[j].path, original[x].path);
            lemma_free_at(modified, before, false, target, original[x].is_dir, 1);
        }
    }
}

/// Pairing by structure never pairs on a guess: every pair it makes is the pair of the
/// roots, or of two entities that kept their path and kind, or comes along with a pair of
/// directories, or is a pair of directories or of files that are similar enough. What
/// is not similar enough stays without a partner.
pub proof fn lemma_structural_pairs_justified(original: Seq<EntityView>, modified: Seq<EntityView>)
    requires
        original.len() <= usize::MAX,
        modified.len() <= usize::MAX,
    ensures
        all_justified(original, modified, structural_matches(original, modified)),
{
    lemma_exact_justified(original, modified, modified.len());
    let exact = exact_phase(original, modified, modified.len());
    lemma_directories_justified(original, modified, exact, original.len());
    let dirs = directory_phase(original, modified, exact, original.len());
    lemma_files_justified(original, modified, dirs, original.len());
}

/// The pairs of entities that kept their place are justified.
pub proof fn lemma_exact_justified(original: Seq<EntityView>, modified: Seq<EntityView>, n: nat)
    requires
        original.len() <= usize::MAX,
        modified.len() <= usize::MAX,
    ensures
        all_justified(original, modified, exact_phase(original, modified, n)),
    decreases n,
{
    if n > 0 {
        let before = exact_phase(original, modified, (n - 1) as nat);
        lemma_exact_justified(original, modified, (n - 1) as nat);
        let j = (n - 1) as nat;
        if 0 < j < modified.len() && original.len() > 0 {
            lemma_free_at(
                original,
                before,
                true,
                modified[j as int].path,
                modified[j as int].is_dir,
                1,
            );
        }
    }
}

/// The pairs of directories, and what comes along with them, are justified.
pub proof fn lemma_directories_justified(
    original: Seq<EntityView>,
    modified: Seq<EntityView>,
    start: Seq<Match>,
    n: nat,
)
    requires
        original.len() <= usize::MAX,
        modified.len() <= usize::MAX,
        all_justified(original, modified, start),
    ensures
        all_justified(original, modified, directory_phase(original, modified, start, n)),
    decreases n,
{
    if n > 0 {
        let before = directory_phase(original, modified, start, (n - 1) as nat);
        lemma_directories_justified(original, modified, start, (n - 1) as nat);
        let i = n - 1;
        if 0 < i < original.len() && original[i].is_dir && !original_matched(before, i) {
            lemma_best_directory(original, modified, before, i, modified.len());
            match best_directory(original, modified, before, i, modified.len()) {
                Some(j) => {
                    let pair = Match {
                        original: i as usize,
                        modified: j as usize,
                        inherited: false,
                    };
                    assert(justified(original, modified, pair));
                    lemma_inherit_justified(
                        original,
                        modified,
                        before.push(pair),
                        i,
                        j as int,
                        original.len(),
                    );
                },
                None => {},
            }
        }
    }
}

/// The pairs of files are justified.
pub proof fn lemma_files_justified(
    original: Seq<EntityView>,
    modified: Seq<EntityView>,
    start: Seq<Match>,
    n: nat,
)
    requires
        original.len() <= usize::MAX,
        modified.len() <= usize::MAX,
        all_justified(original, modified, start),
    ensures
        all_justified(original, modified, file_phase(original, modified, start, n)),
    decreases n,
{
    if n > 0 {
        let before = file_phase(original, modified, start, (n - 1) as nat);
        lemma_files_justified(original, modified, start, (n - 1) as nat);
        let i = n - 1;
        if 0 < i < original.len() && !original[i].is_dir && !original_matched(before, i) {
            lemma_best_file(original, modified, before, i, modified.len());
            match best_file(original, modified, before, i, modified.len()) {
                Some(j) => {
                    let pair = Match {
                        original: i as usize,
                        modified: j as usize,
                        inherited: false,
                    };
                    let similarity = crate::fuzzy::file_similarity(original, modified, i, j as int);
                    let percent = crate::fuzzy::file_percent(original, modified, before, i, j as int);
                    assert(similarity.exceeds(percent));
                    assert(similarity.num * 100 > 30 * similarity.den) by (nonlinear_arith)
                        requires
                            similarity.num * 100 > percent * similarity.den,
                            percent >= 30,
                    ;
                    assert(justified(original, modified, pair));
                },
                None => {},
            }
        }
    }
}

} // verus!
