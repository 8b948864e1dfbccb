//! Laws of the ordering of operations by depth.

use vstd::prelude::*;
use crate::operation::OpView;
use crate::plan::{at_depth, deepest_first, depth_key, from_depth_down, max_depth};

verus! {

/// An empty list stays empty when ordered.
pub proof fn lemma_deepest_first_empty()
    ensures
        deepest_first(Seq::<OpView>::empty()) == Seq::<OpView>::empty(),
{
}

/// Below the smallest depth that occurs there is nothing.
pub proof fn lemma_from_depth_down_none(ops: Seq<OpView>, d: nat)
    requires
        forall|i: int| 0 <= i < ops.len() ==> depth_key(#[trigger] ops[i]) > d,
    ensures
        from_depth_down(ops, d) == Seq::<OpView>::empty(),
    decreases d,
{
    lemma_at_depth_none(ops, d, ops.len());
    if d > 0 {
        lemma_from_depth_down_none(ops, (d - 1) as nat);
    }
}

/// At a depth that does not occur there is nothing.
pub proof fn lemma_at_depth_none(ops: Seq<OpView>, d: nat, n: nat)
    requires
        n <= ops.len(),
        forall|i: int| 0 <= i < n ==> depth_key(#[trigger] ops[i]) != d,
    ensures
        at_depth(ops, d, n) == Seq::<OpView>::empty(),
    decreases n,
{
    if n > 0 {
        lemma_at_depth_none(ops, d, (n - 1) as nat);
    }
}

/// A single operation is its own ordering.
pub proof fn lemma_deepest_first_single(op: OpView)
    ensures
        deepest_first(seq![op]) == seq![op],
{
    let ops = seq![op];
    let d = depth_key(op);
    assert(max_depth(ops, 0) == 0);
    assert(max_depth(ops, 1) == d);
    assert(at_depth(ops, d, 0) == Seq::<OpView>::empty());
    assert(at_depth(ops, d, 1) =~= ops);
    if d > 0 {
        lemma_from_depth_down_none(ops, (d - 1) as nat);
    }
    assert(from_depth_down(ops, d) =~= ops);
}

/// No operation is deeper than the largest depth.
pub proof fn lemma_max_depth(ops: Seq<OpView>, n: nat)
    requires
        n <= ops.len(),
    ensures
        forall|i: int| 0 <= i < n ==> depth_key(#[trigger] ops[i]) <= max_depth(ops, n),
    decreases n,
{
    if n > 0 {
        lemma_max_depth(ops, (n - 1) as nat);
    }
}

/// The operations taken at one depth are those of the list that have that depth.
pub proof fn lemma_at_depth_members(ops: Seq<OpView>, d: nat, n: nat)
    requires
        n <= ops.len(),
    ensures
        forall|x: OpView| #[trigger]
            at_depth(ops, d, n).contains(x) <==> depth_key(x) == d && exists|i: int|
                0 <= i < n && ops[i] == x,
    decreases n,
{
    if n > 0 {
        let before = at_depth(ops, d, (n - 1) as nat);
        lemma_at_depth_members(ops, d, (n - 1) as nat);
        let now = at_depth(ops, d, n);
        assert forall|x: OpView| #[trigger]
            now.contains(x) <==> depth_key(x) == d && exists|i: int|
                0 <= i < n && ops[i] == x by {
            if now.contains(x) {
                let p = choose|p: int| 0 <= p < now.len() && now[p] == x;
                if p < before.len() {
                    assert(before[p] == x);
                    assert(before.contains(x));
                } else {
                    assert(ops[n - 1] == x);
                }
            }
            if depth_key(x) == d && exists|i: int| 0 <= i < n && ops[i] == x {
                let i = choose|i: int| 0 <= i < n && ops[i] == x;
                if i < n - 1 {
                    assert(before.contains(x));
                    let p = choose|p: int| 0 <= p < before.len() && before[p] == x;
                    assert(now[p] == x);
                } else {
                    assert(now[now.len() - 1] == x);
                }
            }
        }
    } else {
        assert forall|x: OpView| !(#[trigger] at_depth(ops, d, n).contains(x)) by {}
    }
}

/// The operations taken from one depth down are those of the list that are no deeper.
pub proof fn lemma_from_depth_down_members(ops: Seq<OpView>, d: nat)
    ensures
        forall|x: OpView| #[trigger]
            from_depth_down(ops, d).contains(x) <==> depth_key(x) <= d && ops.contains(x),
    decreases d,
{
    let here = at_depth(ops, d, ops.len());
    lemma_at_depth_members(ops, d, ops.len());
    if d == 0 {
        assert forall|x: OpView| #[trigger]
            from_depth_down(ops, d).contains(x) <==> depth_key(x) <= d && ops.contains(x) by {
            if ops.contains(x) {
                let i = choose|i: int| 0 <= i < ops.len() && ops[i] == x;
            }
        }
    } else {
        let below = from_depth_down(ops, (d - 1) as nat);
        lemma_from_depth_down_members(ops, (d - 1) as nat);
        let all = here + below;
        assert forall|x: OpView| #[trigger]
            all.contains(x) <==> depth_key(x) <= d && ops.contains(x) by {
            if all.contains(x) {
                let p = choose|p: int| 0 <= p < all.len() && all[p] == x;
                if p < here.len() {
                    assert(here[p] == x);
                    assert(here.contains(x));
                } else {
                    assert(below[p - here.len()] == x);
                    assert(below.contains(x));
                }
            }
            if depth_key(x) <= d && ops.contains(x) {
                let i = choose|i: int| 0 <= i < ops.len() && ops[i] == x;
                if depth_key(x) == d {
                    assert(here.contains(x));
                    let p = choose|p: int| 0 <= p < here.len() && here[p] == x;
                    assert(all[p] == x);
                } else {
                    assert(below.contains(x));
                    let p = choose|p: int| 0 <= p < below.len() && below[p] == x;
                    assert(all[here.len() + p] == x);
                }
            }
        }
    }
}

/// Ordering neither adds an operation nor drops one.
pub proof fn lemma_deepest_first_members(ops: Seq<OpView>)
    ensures
        forall|x: OpView| #[trigger] deepest_first(ops).contains(x) <==> ops.contains(x),
{
    lemma_from_depth_down_members(ops, max_depth(ops, ops.len()));
    lemma_max_depth(ops, ops.len());
    assert forall|x: OpView| ops.contains(x) implies depth_key(x) <= max_depth(
        ops,
        ops.len(),
    ) by {
        let i = choose|i: int| 0 <= i < ops.len() && ops[i] == x;
    }
}

/// Whether the depths of `ops` never grow along the list.
pub open spec fn never_deeper(ops: Seq<OpView>) -> bool {
    forall|p: int, q: int|
        0 <= p < q < ops.len() ==> depth_key(#[trigger] ops[p]) >= depth_key(#[trigger] ops[q])
}

/// From one depth down, the operations come deepest first.
pub proof fn lemma_from_depth_down_sorted(ops: Seq<OpView>, d: nat)
    ensures
        never_deeper(from_depth_down(ops, d)),
    decreases d,
{
    let here = at_depth(ops, d, ops.len());
    lemma_at_depth_members(ops, d, ops.len());
    assert forall|p: int| 0 <= p < here.len() implies depth_key(#[trigger] here[p]) == d by {
        assert(here.contains(here[p]));
    }
    if d > 0 {
        let below = from_depth_down(ops, (d - 1) as nat);
        lemma_from_depth_down_sorted(ops, (d - 1) as nat);
        lemma_from_depth_down_members(ops, (d - 1) as nat);
        assert forall|p: int| 0 <= p < below.len() implies depth_key(#[trigger] below[p]) < d by {
            assert(below.contains(below[p]));
        }
        let all = here + below;
        assert forall|p: int, q: int| 0 <= p < q < all.len() implies depth_key(
            #[trigger] all[p],
        ) >= depth_key(#[trigger] all[q]) by {
            if q < here.len() {
                assert(all[p] == here[p] && all[q] == here[q]);
            } else if p < here.len() {
                assert(all[p] == here[p] && all[q] == below[q - here.len()]);
            } else {
                assert(all[p] == below[p - here.len()] && all[q] == below[q - here.len()]);
            }
        }
    }
}

/// An ordered list runs from its deepest operation to its shallowest.
pub proof fn lemma_deepest_first_sorted(ops: Seq<OpView>)
    ensures
        never_deeper(deepest_first(ops)),
{
    lemma_from_depth_down_sorted(ops, max_depth(ops, ops.len()));
}

/// How often an operation occurs among those taken at one depth: as often as among the
/// operations looked at, if it has that depth, and not at all otherwise.
pub proof fn lemma_at_depth_count(ops: Seq<OpView>, d: nat, n: nat, x: OpView)
    requires
        n <= ops.len(),
    ensures
        at_depth(ops, d, n).to_multiset().count(x) == if depth_key(x) == d {
            ops.take(n as int).to_multiset().count(x)
        } else {
            0
        },
    decreases n,
{
    if n == 0 {
        assert(ops.take(0) =~= Seq::<OpView>::empty());
        ops.take(0).to_multiset_ensures();
        at_depth(ops, d, 0).to_multiset_ensures();
    } else {
        let before = at_depth(ops, d, (n - 1) as nat);
        lemma_at_depth_count(ops, d, (n - 1) as nat, x);
        assert(ops.take(n as int) =~= ops.take(n - 1).push(ops[n - 1]));
        vstd::seq_lib::to_multiset_build(ops.take(n - 1), ops[n - 1]);
        if depth_key(ops[n - 1]) == d {
            vstd::seq_lib::to_multiset_build(before, ops[n - 1]);
        }
    }
}

/// How often an operation occurs among those taken from one depth down: as often as in
/// the whole list, if it is no deeper, and not at all otherwise.
pub proof fn lemma_from_depth_down_count(ops: Seq<OpView>, d: nat, x: OpView)
    ensures
        from_depth_down(ops, d).to_multiset().count(x) == if depth_key(x) <= d {
            ops.to_multiset().count(x)
        } else {
            0
        },
    decreases d,
{
    let here = at_depth(ops, d, ops.len());
    lemma_at_depth_count(ops, d, ops.len(), x);
    assert(ops.take(ops.len() as int) =~= ops);
    if d > 0 {
        let below = from_depth_down(ops, (d - 1) as nat);
        lemma_from_depth_down_count(ops, (d - 1) as nat, x);
        vstd::seq_lib::lemma_multiset_commutative(here, below);
    }
}

/// Ordering is a rearrangement: the ordered list holds the operations of the list, each
/// as often as the list does.
pub proof fn lemma_deepest_first_permutes(ops: Seq<OpView>)
    ensures
        deepest_first(ops).to_multiset() == ops.to_multiset(),
        deepest_first(ops).len() == ops.len(),
        ops.no_duplicates() ==> deepest_first(ops).no_duplicates(),
{
    let deepest = max_depth(ops, ops.len());
    let sorted = deepest_first(ops);
    lemma_max_depth(ops, ops.len());
    assert forall|x: OpView| sorted.to_multiset().count(x) == ops.to_multiset().count(x) by {
        lemma_from_depth_down_count(ops, deepest, x);
        if depth_key(x) > deepest {
            ops.to_multiset_ensures();
            if ops.to_multiset().count(x) > 0 {
                assert(ops.contains(x));
                let i = choose|i: int| 0 <= i < ops.len() && ops[i] == x;
                assert(depth_key(ops[i]) <= deepest);
            }
        }
    }
    assert(sorted.to_multiset() =~= ops.to_multiset());
    sorted.to_multiset_ensures();
    ops.to_multiset_ensures();
    if ops.no_duplicates() {
        ops.lemma_multiset_has_no_duplicates();
        sorted.lemma_multiset_has_no_duplicates_conv();
    }
}

/// Taking the operations of one depth keeps their order.
pub proof fn lemma_at_depth_keeps_order(ops: Seq<OpView>, d: nat, n: nat, i1: int, i2: int)
    requires
        0 <= i1 < i2 < n <= ops.len(),
        depth_key(ops[i1]) == d,
        depth_key(ops[i2]) == d,
    ensures
        exists|lo: int, hi: int|
            0 <= lo < hi < at_depth(ops, d, n).len() && #[trigger] at_depth(ops, d, n)[lo]
                == ops[i1] && #[trigger] at_depth(ops, d, n)[hi] == ops[i2],
    decreases n,
{
    let now = at_depth(ops, d, n);
    let before = at_depth(ops, d, (n - 1) as nat);
    if i2 == n - 1 {
        lemma_at_depth_members(ops, d, (n - 1) as nat);
        assert(before.contains(ops[i1]));
        let lo = choose|lo: int| 0 <= lo < before.len() && before[lo] == ops[i1];
        let hi = before.len() as int;
        assert(now[lo] == ops[i1] && now[hi] == ops[i2]);
    } else {
        lemma_at_depth_keeps_order(ops, d, (n - 1) as nat, i1, i2);
        let (lo, hi) = choose|lo: int, hi: int|
            0 <= lo < hi < before.len() && #[trigger] before[lo] == ops[i1]
                && #[trigger] before[hi] == ops[i2];
        assert(now[lo] == ops[i1] && now[hi] == ops[i2]);
    }
}

/// Ordering keeps the order of operations of the same depth.
pub proof fn lemma_from_depth_down_keeps_order(ops: Seq<OpView>, d: nat, i1: int, i2: int)
    requires
        0 <= i1 < i2 < ops.len(),
        depth_key(ops[i1]) == depth_key(ops[i2]),
        depth_key(ops[i1]) <= d,
    ensures
        exists|lo: int, hi: int|
            0 <= lo < hi < from_depth_down(ops, d).len() && #[trigger] from_depth_down(ops, d)[lo]
                == ops[i1] && #[trigger] from_depth_down(ops, d)[hi] == ops[i2],
    decreases d,
{
    let all = from_depth_down(ops, d);
    let here = at_depth(ops, d, ops.len());
    if depth_key(ops[i1]) == d {
        lemma_at_depth_keeps_order(ops, d, ops.len(), i1, i2);
        let (lo, hi) = choose|lo: int, hi: int|
            0 <= lo < hi < here.len() && #[trigger] here[lo] == ops[i1] && #[trigger] here[hi]
                == ops[i2];
        assert(all[lo] == ops[i1] && all[hi] == ops[i2]);
    } else {
        let below = from_depth_down(ops, (d - 1) as nat);
        lemma_from_depth_down_keeps_order(ops, (d - 1) as nat, i1, i2);
        let (lo, hi) = choose|lo: int, hi: int|
            0 <= lo < hi < below.len() && #[trigger] below[lo] == ops[i1] && #[trigger] below[hi]
                == ops[i2];
        assert(all[here.len() + lo] == ops[i1] && all[here.len() + hi] == ops[i2]);
    }
}

} // verus!
