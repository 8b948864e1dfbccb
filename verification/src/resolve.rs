//! Correspondence between the entities of two snapshots.
//!
//! A correspondence is a list of matches, each pairing the position of an entity in the
//! original snapshot with the position of the same object in the modified one. The roots
//! of the two snapshots always correspond: both stand for the working directory.
//!
//! This module pairs by identity: two entities that carry the same identity are the same
//! object, wherever they lie and whatever they are called. An entity that kept its name
//! inside a directory that was moved is paired as inherited; the move of the directory
//! takes it along.

use vstd::prelude::*;
use crate::entity::{entities_view, Entity, EntityView};
use crate::text::{chars_of, same_chars, spec_base_name, spec_dir_of, split_path};

verus! {

/// One pair of a correspondence.
#[derive(Clone, Copy, Debug, PartialEq, Eq, Structural)]
pub struct Match {
    /// The position of the entity in the original snapshot.
    pub original: usize,
    /// The position of the entity in the modified snapshot.
    pub modified: usize,
    /// Whether the pair follows from the match of a directory above it, so that the entity
    /// comes along when that directory is moved and needs no operation of its own.
    pub inherited: bool,
}

/// The first position at or after `start` of an entity of `entities` with identity `id`.
pub open spec fn position_of(entities: Seq<EntityView>, id: Seq<char>, start: nat) -> Option<nat>
    decreases entities.len() - start,
{
    if start >= entities.len() {
        None
    } else if entities[start as int].id == id {
        Some(start)
    } else {
        position_of(entities, id, start + 1)
    }
}

/// What `position_of` finds carries the identity, and nothing between `start` and it
/// does; when it finds nothing, nothing from `start` on carries the identity.
pub proof fn lemma_position_of(entities: Seq<EntityView>, id: Seq<char>, start: nat)
    ensures
        match position_of(entities, id, start) {
            Some(i) => {
                &&& start <= i < entities.len()
                &&& entities[i as int].id == id
                &&& forall|k: int| start <= k < i ==> (#[trigger] entities[k]).id != id
            },
            None => forall|k: int|
                start <= k < entities.len() ==> (#[trigger] entities[k]).id != id,
        },
    decreases entities.len() - start,
{
    if start < entities.len() && entities[start as int].id != id {
        lemma_position_of(entities, id, start + 1);
    }
}

/// Whether the directories that hold the original entity at `i` and the modified entity
/// at `j` are paired in `matches`.
pub open spec fn parents_paired(
    original: Seq<EntityView>,
    modified: Seq<EntityView>,
    matches: Seq<Match>,
    i: int,
    j: int,
) -> bool {
    exists|k: int|
        0 <= k < matches.len() && (#[trigger] matches[k]).original < original.len()
            && matches[k].modified < modified.len() && original[matches[k].original as int].path
            == spec_dir_of(original[i].path) && modified[matches[k].modified as int].path
            == spec_dir_of(modified[j].path)
}

/// Whether the original entity at `i` comes along to the place of the modified entity at
/// `j` when the directory that holds it is moved: its path is another, its name is the
/// same, and the directories that hold the two are paired.
pub open spec fn comes_along(
    original: Seq<EntityView>,
    modified: Seq<EntityView>,
    matches: Seq<Match>,
    i: int,
    j: int,
) -> bool {
    &&& original[i].path != modified[j].path
    &&& spec_base_name(original[i].path) == spec_base_name(modified[j].path)
    &&& parents_paired(original, modified, matches, i, j)
}

/// The match of the modified entity at `j` by identity, given the matches `before` of the
/// entities before it: the two roots for `j == 0`, and below the root the first original
/// entity with the same identity, if it is of the same kind. The match is inherited where
/// the entity comes along with the directory that holds it.
pub open spec fn identity_match(
    original: Seq<EntityView>,
    modified: Seq<EntityView>,
    before: Seq<Match>,
    j: nat,
) -> Option<Match> {
    if j >= modified.len() || original.len() == 0 {
        None
    } else if j == 0 {
        Some(Match { original: 0, modified: 0, inherited: false })
    } else {
        match position_of(original, modified[j as int].id, 1) {
            Some(i) => if original[i as int].is_dir == modified[j as int].is_dir {
                Some(
                    Match {
                        original: i as usize,
                        modified: j as usize,
                        inherited: comes_along(original, modified, before, i as int, j as int),
                    },
                )
            } else {
                None
            },
            None => None,
        }
    }
}

/// The matches by identity of the first `n` modified entities, in their order.
pub open spec fn identity_matches(
    original: Seq<EntityView>,
    modified: Seq<EntityView>,
    n: nat,
) -> Seq<Match>
    decreases n,
{
    if n == 0 {
        Seq::empty()
    } else {
        let before = identity_matches(original, modified, (n - 1) as nat);
        match identity_match(original, modified, before, (n - 1) as nat) {
            Some(m) => before.push(m),
            None => before,
        }
    }
}

/// Whether the directories that hold the original entity at `i` and the modified entity
/// at `j` are paired in `matches`.
pub fn are_parents_paired(
    original: &Vec<Entity>,
    modified: &Vec<Entity>,
    matches: &Vec<Match>,
    i: usize,
    j: usize,
) -> (r: bool)
    requires
        i < original.len(),
        j < modified.len(),
    ensures
        r == parents_paired(
            entities_view(original@),
            entities_view(modified@),
            matches@,
            i as int,
            j as int,
        ),
{
    let ghost o = entities_view(original@);
    let ghost m = entities_view(modified@);
    let (dir_o, _) = split_path(original[i].path.as_str());
    let (dir_m, _) = split_path(modified[j].path.as_str());
    let mut k: usize = 0;
    while k < matches.len()
        invariant
            k <= matches.len(),
            i < original.len(),
            j < modified.len(),
            o == entities_view(original@),
            m == entities_view(modified@),
            dir_o@ == spec_dir_of(o[i as int].path),
            dir_m@ == spec_dir_of(m[j as int].path),
            forall|l: int|
                0 <= l < k ==> !((#[trigger] matches@[l]).original < o.len() && matches@[l].modified
                    < m.len() && o[matches@[l].original as int].path == dir_o@
                    && m[matches@[l].modified as int].path == dir_m@),
        decreases matches.len() - k,
    {
        let pair = &matches[k];
        if pair.original < original.len() && pair.modified < modified.len() {
            let po = chars_of(original[pair.original].path.as_str());
            if same_chars(&po, &dir_o) {
                let pm = chars_of(modified[pair.modified].path.as_str());
                if same_chars(&pm, &dir_m) {
                    return true;
                }
            }
        }
        k = k + 1;
    }
    false
}

/// Whether the original entity at `i` comes along to the place of the modified entity at
/// `j` when the directory that holds it is moved.
pub fn does_come_along(
    original: &Vec<Entity>,
    modified: &Vec<Entity>,
    matches: &Vec<Match>,
    i: usize,
    j: usize,
) -> (r: bool)
    requires
        i < original.len(),
        j < modified.len(),
    ensures
        r == comes_along(
            entities_view(original@),
            entities_view(modified@),
            matches@,
            i as int,
            j as int,
        ),
{
    if original[i].path == modified[j].path {
        return false;
    }
    let (_, name_o) = split_path(original[i].path.as_str());
    let (_, name_m) = split_path(modified[j].path.as_str());
    if !same_chars(&name_o, &name_m) {
        return false;
    }
    are_parents_paired(original, modified, matches, i, j)
}

/// Pairs the entities of two snapshots by identity.
///
/// The roots are paired with each other. Every other modified entity is paired with the
/// first original entity below the root that carries its identity, provided the two are of
/// the same kind; a modified entity without such a partner stays unmatched. A pair is
/// marked as inherited where the entity kept its name and lies in a directory that is
/// paired with the directory it lay in, but at another path: it comes along when a
/// directory above it is moved and needs no operation of its own. The matches come in the
/// order of the modified snapshot.
pub fn resolve_by_identity(original: &Vec<Entity>, modified: &Vec<Entity>) -> (matches: Vec<
    Match,
>)
    ensures
        matches@ == identity_matches(
            entities_view(original@),
            entities_view(modified@),
            modified@.len(),
        ),
{
    let ghost o = entities_view(original@);
    let ghost m = entities_view(modified@);
    let mut matches: Vec<Match> = Vec::new();
    if original.len() == 0 {
        proof {
            lemma_no_original(o, m, m.len());
        }
        return matches;
    }
    let mut j: usize = 0;
    while j < modified.len()
        invariant
            j <= modified.len(),
            original.len() > 0,
            o == entities_view(original@),
            m == entities_view(modified@),
            matches@ == identity_matches(o, m, j as nat),
        decreases modified.len() - j,
    {
        if j == 0 {
            matches.push(Match { original: 0, modified: 0, inherited: false });
        } else {
            let mut i: usize = 1;
            let mut found: bool = false;
            while i < original.len() && !found
                invariant
                    1 <= i <= original.len(),
                    j < modified.len(),
                    o == entities_view(original@),
                    m == entities_view(modified@),
                    !found ==> position_of(o, m[j as int].id, 1) == position_of(
                        o,
                        m[j as int].id,
                        i as nat,
                    ),
                    found ==> i < original.len() && position_of(o, m[j as int].id, 1) == Some(
                        i as nat,
                    ),
                decreases original.len() - i + (if found { 0int } else { 1int }),
            {
                if original[i].id == modified[j].id {
                    assert(o[i as int].id == m[j as int].id);
                    found = true;
                } else {
                    assert(o[i as int].id != m[j as int].id);
                    i = i + 1;
                }
            }
            if found && original[i].is_dir == modified[j].is_dir {
                let inherited = does_come_along(original, modified, &matches, i, j);
                matches.push(Match { original: i, modified: j, inherited });
            }
        }
        j = j + 1;
    }
    matches
}

/// Against an empty original snapshot nothing is matched.
pub proof fn lemma_no_original(original: Seq<EntityView>, modified: Seq<EntityView>, n: nat)
    requires
        original.len() == 0,
    ensures
        identity_matches(original, modified, n) == Seq::<Match>::empty(),
    decreases n,
{
    if n > 0 {
        lemma_no_original(original, modified, (n - 1) as nat);
    }
}

/// Whether the original entity at `i` has a partner in `matches`.
pub open spec fn original_matched(matches: Seq<Match>, i: int) -> bool {
    exists|k: int| 0 <= k < matches.len() && (#[trigger] matches[k]).original == i
}

/// Whether the modified entity at `j` has a partner in `matches`.
pub open spec fn modified_matched(matches: Seq<Match>, j: int) -> bool {
    exists|k: int| 0 <= k < matches.len() && (#[trigger] matches[k]).modified == j
}

/// Whether `matches` is a correspondence between snapshots of `n_original` and
/// `n_modified` entities: every match lies within both, no original entity is matched
/// twice and no modified entity is.
pub open spec fn is_correspondence(matches: Seq<Match>, n_original: nat, n_modified: nat) -> bool {
    &&& forall|k: int|
        0 <= k < matches.len() ==> (#[trigger] matches[k]).original < n_original && matches[k].modified
            < n_modified
    &&& forall|k: int, l: int|
        0 <= k < l < matches.len() ==> (#[trigger] matches[k]).original != (
        #[trigger] matches[l]).original && matches[k].modified != matches[l].modified
}

/// Whether the original entity at `i` has a partner in `matches`.
pub fn is_original_matched(matches: &Vec<Match>, i: usize) -> (b: bool)
    ensures
        b == original_matched(matches@, i as int),
{
    let mut k: usize = 0;
    while k < matches.len()
        invariant
            k <= matches.len(),
            forall|l: int| 0 <= l < k ==> (#[trigger] matches@[l]).original != i,
        decreases matches.len() - k,
    {
        if matches[k].original == i {
            return true;
        }
        k = k + 1;
    }
    false
}

/// Whether the modified entity at `j` has a partner in `matches`.
pub fn is_modified_matched(matches: &Vec<Match>, j: usize) -> (b: bool)
    ensures
        b == modified_matched(matches@, j as int),
{
    let mut k: usize = 0;
    while k < matches.len()
        invariant
            k <= matches.len(),
            forall|l: int| 0 <= l < k ==> (#[trigger] matches@[l]).modified != j,
        decreases matches.len() - k,
    {
        if matches[k].modified == j {
            return true;
        }
        k = k + 1;
    }
    false
}

} // verus!
