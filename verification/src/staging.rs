//! What a plan needs before it is carried out in order.
//!
//! A plan may rename one entity to the path that another entity of the plan is renamed
//! away from later on: two entities that swap their names do so to each other. Carried
//! out in order, the first rename would find its target taken. Such a rename is routed
//! through a temporary name: it moves its entity aside at once, and a second rename, after
//! all the renames of the plan, brings it to its place.
//!
//! A plan names every entity by the place it has before anything is carried out. Once a
//! directory has been renamed, what lay in it lies in the renamed directory. An operation
//! that follows the rename and concerns such an entity is redirected to where the entity
//! then is.

use vstd::prelude::*;
use crate::operation::{ops_view, FileOperation, OpView};
use crate::outside::fresh_identity;
use crate::plan::{lemma_ops_view_append, lemma_ops_view_push};
use crate::text::concat3;

verus! {

/// Whether the operation at `k` is a rename to a path that a later rename starts from.
pub open spec fn target_in_use(ops: Seq<OpView>, k: int) -> bool {
    &&& 0 <= k < ops.len()
    &&& ops[k] is Rename
    &&& exists|l: int|
        k < l < ops.len() && (#[trigger] ops[l]) is Rename && ops[l]->from == ops[k]->to
}

/// The temporary name beside `path`, made with `token`.
pub open spec fn temporary(path: Seq<char>, token: Seq<char>) -> Seq<char> {
    path + ".tmp-"@ + token
}

/// What is carried out in place of the operation at `k`: the operation itself, or, for a
/// rename whose target is in use, the rename to the temporary name beside its target.
pub open spec fn first_leg(ops: Seq<OpView>, token: Seq<char>, k: int) -> OpView {
    if target_in_use(ops, k) {
        OpView::Rename { from: ops[k]->from, to: temporary(ops[k]->to, token) }
    } else {
        ops[k]
    }
}

/// The first `n` operations, each replaced by its first leg.
pub open spec fn first_legs(ops: Seq<OpView>, token: Seq<char>, n: nat) -> Seq<OpView>
    decreases n,
{
    if n == 0 || n > ops.len() {
        Seq::empty()
    } else {
        first_legs(ops, token, (n - 1) as nat).push(first_leg(ops, token, n - 1))
    }
}

/// The renames that bring the entities moved aside among the first `n` operations to
/// their places, in the order of the operations.
pub open spec fn second_legs(ops: Seq<OpView>, token: Seq<char>, n: nat) -> Seq<OpView>
    decreases n,
{
    if n == 0 || n > ops.len() {
        Seq::empty()
    } else {
        let before = second_legs(ops, token, (n - 1) as nat);
        if target_in_use(ops, n - 1) {
            before.push(
                OpView::Rename { from: temporary(ops[n - 1]->to, token), to: ops[n - 1]->to },
            )
        } else {
            before
        }
    }
}

/// One more than the position of the last rename among the first `n` operations, 0 where
/// there is none.
pub open spec fn renames_end(ops: Seq<OpView>, n: nat) -> nat
    decreases n,
{
    if n == 0 || n > ops.len() {
        0
    } else if ops[n - 1] is Rename {
        n
    } else {
        renames_end(ops, (n - 1) as nat)
    }
}

/// The position lies within the list, and no rename stands at or after it.
pub proof fn lemma_renames_end(ops: Seq<OpView>, n: nat)
    requires
        n <= ops.len(),
    ensures
        renames_end(ops, n) <= n,
        forall|k: int| renames_end(ops, n) <= k < n ==> !((#[trigger] ops[k]) is Rename),
    decreases n,
{
    if n > 0 && !(ops[n - 1] is Rename) {
        lemma_renames_end(ops, (n - 1) as nat);
    }
}

/// The operations as they are carried out: up to the last rename each operation is
/// replaced by its first leg, then come the second legs, then the rest unchanged.
pub open spec fn staged(ops: Seq<OpView>, token: Seq<char>) -> Seq<OpView> {
    let end = renames_end(ops, ops.len());
    first_legs(ops, token, end) + second_legs(ops, token, end) + ops.subrange(
        end as int,
        ops.len() as int,
    )
}

/// The two ends of a rename.
fn ends_of(op: &FileOperation) -> (r: Option<(&String, &String)>)
    ensures
        r is Some <==> op@ is Rename,
        r matches Some(ends) ==> ends.0@ == op@->from && ends.1@ == op@->to,
{
    match op {
        FileOperation::Rename { from, to } => Some((from, to)),
        _ => None,
    }
}

/// Whether the operation at `k` is a rename to a path that a later rename starts from.
fn is_target_in_use(ops: &Vec<FileOperation>, k: usize) -> (r: bool)
    requires
        k < ops.len(),
    ensures
        r == target_in_use(ops_view(ops@), k as int),
{
    let ghost ov = ops_view(ops@);
    assert(ov[k as int] == ops@[k as int]@);
    match ends_of(&ops[k]) {
        None => false,
        Some((_, to)) => {
            let mut l: usize = k + 1;
            while l < ops.len()
                invariant
                    k < l <= ops.len(),
                    ov == ops_view(ops@),
                    ov[k as int] is Rename,
                    to@ == ov[k as int]->to,
                    forall|m: int|
                        k < m < l ==> !((#[trigger] ov[m]) is Rename && ov[m]->from == to@),
                decreases ops.len() - l,
            {
                assert(ov[l as int] == ops@[l as int]@);
                match ends_of(&ops[l]) {
                    Some((from, _)) => {
                        if *from == *to {
                            assert(ov[l as int] is Rename && ov[l as int]->from == ov[k as int]->to);
                            return true;
                        }
                    },
                    None => {},
                }
                l = l + 1;
            }
            false
        },
    }
}

/// Routes the renames of `ops` whose target is in use through temporary names made with
/// `token`.
pub fn stage_with(ops: &Vec<FileOperation>, token: &str) -> (out: Vec<FileOperation>)
    ensures
        ops_view(out@) == staged(ops_view(ops@), token@),
{
    let ghost ov = ops_view(ops@);
    let mut end: usize = 0;
    let mut i: usize = 0;
    while i < ops.len()
        invariant
            i <= ops.len(),
            ov == ops_view(ops@),
            end == renames_end(ov, i as nat),
        decreases ops.len() - i,
    {
        assert(ov[i as int] == ops@[i as int]@);
        match ends_of(&ops[i]) {
            Some(_) => {
                end = i + 1;
            },
            None => {},
        }
        i = i + 1;
    }
    proof {
        lemma_renames_end(ov, ov.len());
    }
    let mut out: Vec<FileOperation> = Vec::new();
    let mut later: Vec<FileOperation> = Vec::new();
    assert(ops_view(out@) =~= Seq::<OpView>::empty());
    assert(ops_view(later@) =~= Seq::<OpView>::empty());
    let mut k: usize = 0;
    while k < end
        invariant
            k <= end <= ops.len(),
            ov == ops_view(ops@),
            ops_view(out@) == first_legs(ov, token@, k as nat),
            ops_view(later@) == second_legs(ov, token@, k as nat),
        decreases end - k,
    {
        assert(ov[k as int] == ops@[k as int]@);
        if is_target_in_use(ops, k) {
            match ends_of(&ops[k]) {
                Some((from, to)) => {
                    let aside = concat3(to.as_str(), ".tmp-", token);
                    let first = FileOperation::Rename { from: from.clone(), to: aside.clone() };
                    let second = FileOperation::Rename { from: aside, to: to.clone() };
                    proof {
                        lemma_ops_view_push(out@, first);
                        lemma_ops_view_push(later@, second);
                    }
                    out.push(first);
                    later.push(second);
                },
                None => {},
            }
        } else {
            let same = ops[k].duplicate();
            proof {
                lemma_ops_view_push(out@, same);
            }
            out.push(same);
        }
        k = k + 1;
    }
    proof {
        lemma_ops_view_append(out@, later@);
    }
    out.append(&mut later);
    let ghost head = ops_view(out@);
    let mut r: usize = end;
    assert(ov.subrange(end as int, end as int) =~= Seq::<OpView>::empty());
    while r < ops.len()
        invariant
            end <= r <= ops.len(),
            ov == ops_view(ops@),
            ops_view(out@) == head + ov.subrange(end as int, r as int),
        decreases ops.len() - r,
    {
        assert(ov[r as int] == ops@[r as int]@);
        let same = ops[r].duplicate();
        proof {
            lemma_ops_view_push(out@, same);
            assert(ov.subrange(end as int, r + 1) =~= ov.subrange(end as int, r as int).push(
                ov[r as int],
            ));
        }
        out.push(same);
        r = r + 1;
    }
    out
}

/// Where the entity at `path` is once the directory at `from` has been renamed to `to`:
/// below `to` if it lay below `from`, and where it was otherwise.
pub open spec fn redirected(path: Seq<char>, from: Seq<char>, to: Seq<char>) -> Seq<char> {
    if crate::plan::is_ancestor_path(from, path) {
        to + path.subrange(from.len() as int, path.len() as int)
    } else {
        path
    }
}

/// Where the source of the operation at `q` is once the renames among the first `n`
/// operations have been carried out, each from where its own source then was.
pub open spec fn source_after(ops: Seq<OpView>, q: int, n: nat) -> Seq<char>
    decreases q, n,
{
    if n == 0 || n > q || q >= ops.len() {
        ops[q].source()
    } else {
        let before = source_after(ops, q, (n - 1) as nat);
        match ops[n - 1] {
            OpView::Rename { from, to } => redirected(
                before,
                source_after(ops, n - 1, (n - 1) as nat),
                to,
            ),
            _ => before,
        }
    }
}

/// The operation `op` with `source` for its source.
pub open spec fn with_source(op: OpView, source: Seq<char>) -> OpView {
    match op {
        OpView::CreateDir { path } => OpView::CreateDir { path: source },
        OpView::CreateFile { path } => OpView::CreateFile { path: source },
        OpView::Rename { from, to } => OpView::Rename { from: source, to },
        OpView::Delete { path } => OpView::Delete { path: source },
    }
}

/// The operation at `q` as it is carried out after the operations before it: a rename or
/// a deletion starts from where its entity then is. A creation stays as it is.
pub open spec fn followed_at(ops: Seq<OpView>, q: int) -> OpView {
    if ops[q] is Rename || ops[q] is Delete {
        with_source(ops[q], source_after(ops, q, q as nat))
    } else {
        ops[q]
    }
}

/// The first `n` operations, each as it is carried out after those before it.
pub open spec fn followed(ops: Seq<OpView>, n: nat) -> Seq<OpView>
    decreases n,
{
    if n == 0 || n > ops.len() {
        Seq::empty()
    } else {
        followed(ops, (n - 1) as nat).push(followed_at(ops, n - 1))
    }
}

/// There are as many operations after as before, and each is the one at its position as
/// it is carried out.
pub proof fn lemma_followed(ops: Seq<OpView>, n: nat)
    requires
        n <= ops.len(),
    ensures
        followed(ops, n).len() == n,
        forall|q: int| 0 <= q < n ==> (#[trigger] followed(ops, n)[q]) == followed_at(ops, q),
    decreases n,
{
    if n > 0 {
        lemma_followed(ops, (n - 1) as nat);
    }
}

/// Where no rename or deletion concerns an entity below the source of a rename before
/// it, nothing is redirected.
pub proof fn lemma_followed_unchanged(ops: Seq<OpView>, n: nat)
    requires
        n <= ops.len(),
        forall|k: int, q: int|
            0 <= k < q < ops.len() && (#[trigger] ops[k]) is Rename
                ==> !crate::plan::is_ancestor_path(ops[k]->from, (#[trigger] ops[q]).source()),
    ensures
        followed(ops, n) == ops.take(n as int),
    decreases n,
{
    if n > 0 {
        lemma_followed_unchanged(ops, (n - 1) as nat);
        lemma_source_stays(ops, n - 1, (n - 1) as nat);
        let op = ops[n - 1];
        assert(with_source(op, op.source()) == op);
        assert(ops.take(n as int) =~= ops.take(n - 1).push(op));
    } else {
        assert(ops.take(0) =~= Seq::<OpView>::empty());
    }
}

/// Where no operation concerns an entity below the source of a rename before it, every
/// source stays where it is.
pub proof fn lemma_source_stays(ops: Seq<OpView>, q: int, n: nat)
    requires
        0 <= q < ops.len(),
        n <= q,
        forall|k: int, l: int|
            0 <= k < l < ops.len() && (#[trigger] ops[k]) is Rename
                ==> !crate::plan::is_ancestor_path(ops[k]->from, (#[trigger] ops[l]).source()),
    ensures
        source_after(ops, q, n) == ops[q].source(),
    decreases q, n,
{
    if n > 0 {
        lemma_source_stays(ops, q, (n - 1) as nat);
        if ops[n - 1] is Rename {
            lemma_source_stays(ops, n - 1, (n - 1) as nat);
        }
    }
}

/// Where the entity at `path` is once the directory at `from` has been renamed to `to`.
pub fn redirect(path: &String, from: &str, to: &str) -> (r: String)
    ensures
        r@ == redirected(path@, from@, to@),
{
    if crate::plan::path_is_above(from, path.as_str()) {
        let p = crate::text::chars_of(path.as_str());
        let f = crate::text::chars_of(from);
        let rest = crate::text::string_of(&p, f.len(), p.len());
        crate::text::concat2(to, rest.as_str())
    } else {
        path.clone()
    }
}

/// Redirects every rename and deletion of `ops` to where its entity is after the renames
/// before it.
pub fn follow_renames(ops: &Vec<FileOperation>) -> (out: Vec<FileOperation>)
    ensures
        ops_view(out@) == followed(ops_view(ops@), ops@.len()),
{
    let ghost ov = ops_view(ops@);
    let mut out: Vec<FileOperation> = Vec::new();
    assert(ops_view(out@) =~= Seq::<OpView>::empty());
    let mut q: usize = 0;
    while q < ops.len()
        invariant
            q <= ops.len(),
            ov == ops_view(ops@),
            ops_view(out@) == followed(ov, q as nat),
        decreases ops.len() - q,
    {
        assert(ov[q as int] == ops@[q as int]@);
        proof {
            lemma_followed(ov, q as nat);
        }
        let next = match &ops[q] {
            FileOperation::Rename { from, to } => {
                let source = source_at(ops, &out, q, from);
                FileOperation::Rename { from: source, to: to.clone() }
            },
            FileOperation::Delete { path } => {
                let source = source_at(ops, &out, q, path);
                FileOperation::Delete { path: source }
            },
            other => other.duplicate(),
        };
        proof {
            lemma_ops_view_push(out@, next);
        }
        out.push(next);
        q = q + 1;
    }
    out
}

/// Where the source `source` of the operation at `q` is after the operations before it,
/// which `done` holds as they are carried out.
fn source_at(ops: &Vec<FileOperation>, done: &Vec<FileOperation>, q: usize, source: &String) -> (r:
    String)
    requires
        q < ops.len(),
        done.len() == q,
        source@ == ops_view(ops@)[q as int].source(),
        forall|k: int|
            0 <= k < q ==> (#[trigger] ops_view(done@)[k]) == followed_at(ops_view(ops@), k),
    ensures
        r@ == source_after(ops_view(ops@), q as int, q as nat),
{
    let ghost ov = ops_view(ops@);
    let ghost dv = ops_view(done@);
    let mut path = source.clone();
    let mut k: usize = 0;
    while k < q
        invariant
            k <= q < ops.len(),
            done.len() == q,
            ov == ops_view(ops@),
            dv == ops_view(done@),
            forall|l: int| 0 <= l < q ==> (#[trigger] dv[l]) == followed_at(ov, l),
            path@ == source_after(ov, q as int, k as nat),
        decreases q - k,
    {
        assert(dv[k as int] == done@[k as int]@);
        assert(dv[k as int] == followed_at(ov, k as int));
        match ends_of(&done[k]) {
            Some((from, to)) => {
                path = redirect(&path, from.as_str(), to.as_str());
            },
            None => {},
        }
        k = k + 1;
    }
    path
}

/// What is carried out for `ops`, with `token` for the temporary names: the renames
/// whose target is in use routed through temporary names, and then every rename and
/// deletion redirected to where its entity is after the renames before it.
pub open spec fn prepared(ops: Seq<OpView>, token: Seq<char>) -> Seq<OpView> {
    followed(staged(ops, token), staged(ops, token).len())
}

/// Whether no path of a rename of `ops` is a temporary name made with `token`.
pub fn is_token_fresh(ops: &Vec<FileOperation>, token: &str) -> (r: bool)
    ensures
        r == token_is_fresh(ops_view(ops@), token@),
{
    let ghost ov = ops_view(ops@);
    let mut m: usize = 0;
    while m < ops.len()
        invariant
            m <= ops.len(),
            ov == ops_view(ops@),
            forall|k: int, l: int|
                0 <= k < ops.len() && 0 <= l < m && (#[trigger] ov[k]) is Rename && (
                #[trigger] ov[l]) is Rename ==> ov[k]->from != temporary(ov[l]->to, token@)
                    && ov[k]->to != temporary(ov[l]->to, token@),
        decreases ops.len() - m,
    {
        assert(ov[m as int] == ops@[m as int]@);
        match ends_of(&ops[m]) {
            Some((_, target)) => {
                let aside = concat3(target.as_str(), ".tmp-", token);
                let mut k: usize = 0;
                while k < ops.len()
                    invariant
                        k <= ops.len(),
                        m < ops.len(),
                        ov == ops_view(ops@),
                        ov[m as int] is Rename,
                        aside@ == temporary(ov[m as int]->to, token@),
                        forall|j: int|
                            0 <= j < k && (#[trigger] ov[j]) is Rename ==> ov[j]->from != aside@
                                && ov[j]->to != aside@,
                    decreases ops.len() - k,
                {
                    assert(ov[k as int] == ops@[k as int]@);
                    match ends_of(&ops[k]) {
                        Some((from, to)) => {
                            if *from == aside || *to == aside {
                                assert(ov[k as int] is Rename && ov[m as int] is Rename);
                                return false;
                            }
                        },
                        None => {},
                    }
                    k = k + 1;
                }
            },
            None => {},
        }
        m = m + 1;
    }
    true
}

/// Makes of the drawn token `drawn` one that is fresh for `ops`: `drawn` itself where it
/// is fresh, and otherwise `drawn` behind a filling that makes every temporary name
/// longer than every path of a rename of `ops`.
pub fn settle_token(ops: &Vec<FileOperation>, drawn: String) -> (token: String)
    ensures
        token_is_fresh(ops_view(ops@), token@),
{
    if is_token_fresh(ops, drawn.as_str()) {
        return drawn;
    }
    let ghost ov = ops_view(ops@);
    let mut longest: usize = 0;
    let mut i: usize = 0;
    while i < ops.len()
        invariant
            i <= ops.len(),
            ov == ops_view(ops@),
            forall|k: int|
                0 <= k < i && (#[trigger] ov[k]) is Rename ==> ov[k]->from.len() <= longest
                    && ov[k]->to.len() <= longest,
        decreases ops.len() - i,
    {
        assert(ov[i as int] == ops@[i as int]@);
        match ends_of(&ops[i]) {
            Some((from, to)) => {
                let a = from.as_str().unicode_len();
                let b = to.as_str().unicode_len();
                if a > longest {
                    longest = a;
                }
                if b > longest {
                    longest = b;
                }
            },
            None => {},
        }
        i = i + 1;
    }
    let mut token = String::new();
    let mut n: usize = 0;
    while n < longest
        invariant
            n <= longest,
            token@.len() == n,
        decreases longest - n,
    {
        token.append("x");
        proof {
            reveal_strlit("x");
        }
        n = n + 1;
    }
    token.append("-");
    proof {
        reveal_strlit("-");
    }
    token.append(drawn.as_str());
    assert(token@.len() > longest);
    assert forall|k: int, m: int|
        0 <= k < ov.len() && 0 <= m < ov.len() && (#[trigger] ov[k]) is Rename && (
        #[trigger] ov[m]) is Rename implies ov[k]->from != temporary(ov[m]->to, token@)
        && ov[k]->to != temporary(ov[m]->to, token@) by {
        assert(temporary(ov[m]->to, token@).len() >= token@.len());
    }
    token
}

/// Prepares `ops` to be carried out in order, with a new random token for the temporary
/// names. The token is fresh: no path of a rename of `ops` is a temporary name made with
/// it.
pub fn stage(ops: &Vec<FileOperation>) -> (out: Vec<FileOperation>)
    ensures
        exists|token: Seq<char>|
            token_is_fresh(ops_view(ops@), token) && ops_view(out@) == #[trigger] prepared(
                ops_view(ops@),
                token,
            ),
{
    let token = settle_token(ops, fresh_identity());
    let routed = stage_with(ops, token.as_str());
    let out = follow_renames(&routed);
    assert(ops_view(out@) == prepared(ops_view(ops@), token@));
    out
}

/// There are as many first legs as operations looked at, and each is the first leg of the
/// operation at its position.
pub proof fn lemma_first_legs(ops: Seq<OpView>, token: Seq<char>, n: nat)
    requires
        n <= ops.len(),
    ensures
        first_legs(ops, token, n).len() == n,
        forall|k: int| 0 <= k < n ==> (#[trigger] first_legs(ops, token, n)[k]) == first_leg(ops, token, k),
    decreases n,
{
    if n > 0 {
        lemma_first_legs(ops, token, (n - 1) as nat);
    }
}

/// Every second leg brings an entity from the temporary name beside the target of a
/// rename whose target is in use to that target.
pub proof fn lemma_second_legs(ops: Seq<OpView>, token: Seq<char>, n: nat)
    requires
        n <= ops.len(),
    ensures
        forall|p: int|
            0 <= p < second_legs(ops, token, n).len() ==> exists|k: int|
                0 <= k < n && target_in_use(ops, k) && (#[trigger] second_legs(ops, token, n)[p])
                    == (OpView::Rename { from: temporary(ops[k]->to, token), to: ops[k]->to }),
        forall|k: int|
            0 <= k < n && target_in_use(ops, k) ==> second_legs(ops, token, n).contains(
                OpView::Rename { from: temporary((#[trigger] ops[k])->to, token), to: ops[k]->to },
            ),
    decreases n,
{
    let now = second_legs(ops, token, n);
    if n > 0 {
        let before = second_legs(ops, token, (n - 1) as nat);
        lemma_second_legs(ops, token, (n - 1) as nat);
        assert forall|p: int| 0 <= p < now.len() implies exists|k: int|
            0 <= k < n && target_in_use(ops, k) && (#[trigger] now[p]) == (OpView::Rename {
                from: temporary(ops[k]->to, token),
                to: ops[k]->to,
            }) by {
            if p < before.len() {
                assert(now[p] == before[p]);
            } else {
                assert(target_in_use(ops, n - 1));
            }
        }
        assert forall|k: int| 0 <= k < n && target_in_use(ops, k) implies now.contains(
            OpView::Rename { from: temporary((#[trigger] ops[k])->to, token), to: ops[k]->to },
        ) by {
            let leg = OpView::Rename { from: temporary(ops[k]->to, token), to: ops[k]->to };
            if k < n - 1 {
                assert(before.contains(leg));
                let p = choose|p: int| 0 <= p < before.len() && before[p] == leg;
                assert(now[p] == leg);
            } else {
                assert(now[now.len() - 1] == leg);
            }
        }
    }
}

/// Where no rename ends at a path that a later rename starts from, nothing is routed: the
/// operations are carried out as they are.
pub proof fn lemma_staged_unchanged(ops: Seq<OpView>, token: Seq<char>)
    requires
        forall|k: int| 0 <= k < ops.len() ==> !target_in_use(ops, k),
    ensures
        staged(ops, token) == ops,
{
    let end = renames_end(ops, ops.len());
    lemma_renames_end(ops, ops.len());
    lemma_first_legs(ops, token, end);
    lemma_second_legs(ops, token, end);
    let legs = second_legs(ops, token, end);
    if legs.len() > 0 {
        let k = choose|k: int|
            0 <= k < end && target_in_use(ops, k) && legs[0] == (OpView::Rename {
                from: temporary(ops[k]->to, token),
                to: ops[k]->to,
            });
        assert(false);
    }
    assert(staged(ops, token) =~= ops);
}

/// Whether no path of a rename of `ops` is a temporary name made with `token`.
pub open spec fn token_is_fresh(ops: Seq<OpView>, token: Seq<char>) -> bool {
    forall|k: int, m: int|
        0 <= k < ops.len() && 0 <= m < ops.len() && (#[trigger] ops[k]) is Rename && (
        #[trigger] ops[m]) is Rename ==> ops[k]->from != temporary(ops[m]->to, token)
            && ops[k]->to != temporary(ops[m]->to, token)
}

/// Whether `path` is a temporary name beside the target of a rename of `ops`.
pub open spec fn is_temporary(ops: Seq<OpView>, token: Seq<char>, path: Seq<char>) -> bool {
    exists|m: int|
        0 <= m < ops.len() && (#[trigger] ops[m]) is Rename && path == temporary(
            ops[m]->to,
            token,
        )
}

/// As the operations are carried out, no rename ends at a path from which a later rename
/// takes an entity of the plan: where a rename ends at the start of a later one, that
/// path is a temporary name, free until the rename puts its entity there. This holds
/// where the token is fresh, that is, where no path of the plan is such a temporary name.
pub proof fn lemma_staged_targets_free(ops: Seq<OpView>, token: Seq<char>, p: int, q: int)
    requires
        token_is_fresh(ops, token),
        0 <= p < q < staged(ops, token).len(),
        staged(ops, token)[p] is Rename,
        staged(ops, token)[q] is Rename,
        staged(ops, token)[p]->to == staged(ops, token)[q]->from,
    ensures
        is_temporary(ops, token, staged(ops, token)[p]->to),
{
    let end = renames_end(ops, ops.len());
    let all = staged(ops, token);
    let first = first_legs(ops, token, end);
    let second = second_legs(ops, token, end);
    let rest = ops.subrange(end as int, ops.len() as int);
    lemma_renames_end(ops, ops.len());
    lemma_first_legs(ops, token, end);
    lemma_second_legs(ops, token, end);
    assert forall|k: int| 0 <= k < rest.len() implies !((#[trigger] rest[k]) is Rename) by {
        assert(rest[k] == ops[end + k]);
    }
    if q >= first.len() + second.len() {
        assert(all[q] == rest[q - first.len() - second.len()]);
        assert(false);
    }
    if p < first.len() {
        assert(all[p] == first_leg(ops, token, p));
        if !target_in_use(ops, p) {
            if q < first.len() {
                assert(all[q] == first_leg(ops, token, q));
                assert(ops[q] is Rename && ops[q]->from == ops[p]->to);
                assert(false);
            } else {
                let leg = second[q - first.len()];
                assert(all[q] == leg);
                let k = choose|k: int|
                    0 <= k < end && target_in_use(ops, k) && leg == (OpView::Rename {
                        from: temporary(ops[k]->to, token),
                        to: ops[k]->to,
                    });
                assert(ops[p]->to == temporary(ops[k]->to, token));
                assert(false);
            }
        }
    } else {
        let leg = second[p - first.len()];
        assert(all[p] == leg);
        let k = choose|k: int|
            0 <= k < end && target_in_use(ops, k) && leg == (OpView::Rename {
                from: temporary(ops[k]->to, token),
                to: ops[k]->to,
            });
        let other = second[q - first.len()];
        assert(all[q] == other);
        let m = choose|m: int|
            0 <= m < end && target_in_use(ops, m) && other == (OpView::Rename {
                from: temporary(ops[m]->to, token),
                to: ops[m]->to,
            });
        assert(ops[k]->to == temporary(ops[m]->to, token));
        assert(false);
    }
}

/// The positions among the first `n` operations of the renames whose target is in use, in
/// order.
pub open spec fn routed_positions(ops: Seq<OpView>, n: nat) -> Seq<int>
    decreases n,
{
    if n == 0 || n > ops.len() {
        Seq::empty()
    } else {
        let before = routed_positions(ops, (n - 1) as nat);
        if target_in_use(ops, n - 1) {
            before.push(n - 1)
        } else {
            before
        }
    }
}

/// The positions from `from` up to `to`, in order.
pub open spec fn positions(from: int, to: int) -> Seq<int> {
    Seq::new((to - from) as nat, |i: int| from + i)
}

/// For every operation that is carried out for `ops`, the position in `ops` of the
/// operation that it is carried out for: a first leg stands for the operation at its
/// position, a second leg for the rename that it completes, and what follows the renames
/// for itself.
pub open spec fn origins(ops: Seq<OpView>) -> Seq<int> {
    let end = renames_end(ops, ops.len());
    positions(0, end as int) + routed_positions(ops, end) + positions(end as int, ops.len() as int)
}

/// There is one second leg for every rename whose target is in use.
pub proof fn lemma_second_legs_len(ops: Seq<OpView>, token: Seq<char>, n: nat)
    requires
        n <= ops.len(),
    ensures
        second_legs(ops, token, n).len() == routed_positions(ops, n).len(),
        forall|p: int|
            0 <= p < routed_positions(ops, n).len() ==> 0 <= #[trigger] routed_positions(ops, n)[p]
                < n,
    decreases n,
{
    if n > 0 {
        lemma_second_legs_len(ops, token, (n - 1) as nat);
    }
}

/// Every operation that is carried out has an origin, and every origin is a position of
/// the plan.
pub proof fn lemma_origins(ops: Seq<OpView>, token: Seq<char>)
    ensures
        origins(ops).len() == prepared(ops, token).len(),
        forall|p: int| 0 <= p < origins(ops).len() ==> 0 <= #[trigger] origins(ops)[p] < ops.len(),
{
    let end = renames_end(ops, ops.len());
    lemma_renames_end(ops, ops.len());
    lemma_first_legs(ops, token, end);
    lemma_second_legs_len(ops, token, end);
    lemma_followed(staged(ops, token), staged(ops, token).len());
}

/// The views of a list of positions.
pub open spec fn positions_view(list: Seq<usize>) -> Seq<int> {
    list.map_values(|p: usize| p as int)
}

/// For every operation that is carried out for `ops`, the position in `ops` of the
/// operation that it is carried out for.
pub fn origins_of(ops: &Vec<FileOperation>) -> (out: Vec<usize>)
    ensures
        positions_view(out@) == origins(ops_view(ops@)),
{
    let ghost ov = ops_view(ops@);
    let mut end: usize = 0;
    let mut i: usize = 0;
    while i < ops.len()
        invariant
            i <= ops.len(),
            ov == ops_view(ops@),
            end == renames_end(ov, i as nat),
            end <= i,
        decreases ops.len() - i,
    {
        assert(ov[i as int] == ops@[i as int]@);
        match ends_of(&ops[i]) {
            Some(_) => {
                end = i + 1;
            },
            None => {},
        }
        i = i + 1;
    }
    let mut out: Vec<usize> = Vec::new();
    let mut k: usize = 0;
    while k < end
        invariant
            k <= end <= ops.len(),
            positions_view(out@) =~= positions(0, k as int),
        decreases end - k,
    {
        let ghost before = positions_view(out@);
        out.push(k);
        assert(positions_view(out@) =~= before.push(k as int));
        k = k + 1;
    }
    let ghost head = positions_view(out@);
    let mut r: usize = 0;
    assert(positions_view(out@) =~= head + routed_positions(ov, 0));
    while r < end
        invariant
            r <= end <= ops.len(),
            ov == ops_view(ops@),
            positions_view(out@) =~= head + routed_positions(ov, r as nat),
        decreases end - r,
    {
        if is_target_in_use(ops, r) {
            let ghost before = positions_view(out@);
            out.push(r);
            assert(positions_view(out@) =~= before.push(r as int));
        }
        r = r + 1;
    }
    let ghost middle = positions_view(out@);
    let mut t: usize = end;
    while t < ops.len()
        invariant
            end <= t <= ops.len(),
            positions_view(out@) =~= middle + positions(end as int, t as int),
        decreases ops.len() - t,
    {
        let ghost before = positions_view(out@);
        out.push(t);
        assert(positions_view(out@) =~= before.push(t as int));
        t = t + 1;
    }
    out
}

/// How an operation of the plan ended, told from what was carried out for it.
pub struct Verdict {
    pub success: bool,
    pub message: Seq<char>,
}

/// How the operation at `k` of the plan ended, told from the first `n` reports: it
/// succeeded if everything that was carried out for it did, and its message is that of
/// the first failure or, without one, that of the last step.
pub open spec fn verdict_upto(
    origins: Seq<int>,
    reports: Seq<crate::operation::ResultView>,
    k: int,
    n: nat,
) -> Verdict
    decreases n,
{
    if n == 0 || n > origins.len() || n > reports.len() {
        Verdict { success: true, message: Seq::empty() }
    } else {
        let before = verdict_upto(origins, reports, k, (n - 1) as nat);
        if origins[n - 1] == k && before.success {
            Verdict { success: reports[n - 1].success, message: reports[n - 1].message }
        } else {
            before
        }
    }
}

/// The reports for the first `n` operations of the plan, one for each, told from the
/// reports of what was carried out.
pub open spec fn gathered(
    planned: Seq<OpView>,
    origins: Seq<int>,
    reports: Seq<crate::operation::ResultView>,
    n: nat,
) -> Seq<crate::operation::ResultView>
    decreases n,
{
    if n == 0 || n > planned.len() {
        Seq::empty()
    } else {
        let verdict = verdict_upto(origins, reports, n - 1, reports.len());
        gathered(planned, origins, reports, (n - 1) as nat).push(
            crate::operation::ResultView {
                operation: crate::operation::spec_describe(planned[n - 1]),
                success: verdict.success,
                message: verdict.message,
            },
        )
    }
}

/// There is one gathered report for each operation of the plan.
pub proof fn lemma_gathered_len(
    planned: Seq<OpView>,
    origins: Seq<int>,
    reports: Seq<crate::operation::ResultView>,
    n: nat,
)
    requires
        n <= planned.len(),
    ensures
        gathered(planned, origins, reports, n).len() == n,
    decreases n,
{
    if n > 0 {
        lemma_gathered_len(planned, origins, reports, (n - 1) as nat);
    }
}

/// Tells from the reports of what was carried out how each operation of the plan ended:
/// one report for each operation of `planned`, in their order. `origins` says for each
/// report which operation of the plan it belongs to.
pub fn gather(
    planned: &Vec<FileOperation>,
    origins: &Vec<usize>,
    reports: &Vec<crate::operation::OperationResult>,
) -> (out: Vec<crate::operation::OperationResult>)
    requires
        origins.len() == reports.len(),
    ensures
        out.len() == planned.len(),
        crate::engine::results_view(out@) == gathered(
            ops_view(planned@),
            positions_view(origins@),
            crate::engine::results_view(reports@),
            planned@.len(),
        ),
{
    let ghost pv = ops_view(planned@);
    let ghost og = positions_view(origins@);
    let ghost rv = crate::engine::results_view(reports@);
    let mut out: Vec<crate::operation::OperationResult> = Vec::new();
    assert(crate::engine::results_view(out@) =~= Seq::<crate::operation::ResultView>::empty());
    let mut k: usize = 0;
    while k < planned.len()
        invariant
            k <= planned.len(),
            out.len() == k,
            origins.len() == reports.len(),
            pv == ops_view(planned@),
            og == positions_view(origins@),
            rv == crate::engine::results_view(reports@),
            crate::engine::results_view(out@) == gathered(pv, og, rv, k as nat),
        decreases planned.len() - k,
    {
        let mut success = true;
        let mut message = String::new();
        let mut p: usize = 0;
        while p < reports.len()
            invariant
                p <= reports.len(),
                origins.len() == reports.len(),
                og == positions_view(origins@),
                rv == crate::engine::results_view(reports@),
                (Verdict { success, message: message@ }) == verdict_upto(og, rv, k as int, p as nat),
            decreases reports.len() - p,
        {
            assert(og[p as int] == origins@[p as int] as int);
            assert(rv[p as int] == reports@[p as int]@);
            if origins[p] == k && success {
                success = reports[p].success;
                message = reports[p].message.clone();
            }
            p = p + 1;
        }
        assert(pv[k as int] == planned@[k as int]@);
        let ghost before = crate::engine::results_view(out@);
        let report = crate::operation::OperationResult {
            operation: planned[k].describe(),
            success,
            message,
        };
        out.push(report);
        assert(crate::engine::results_view(out@) =~= before.push(report@));
        k = k + 1;
    }
    out
}

} // verus!
