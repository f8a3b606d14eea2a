//! What holds of every disjoint-set structure, whatever has been done to it.
//!
//! The laws are stated over the view of a structure, the partition of its
//! indices, in the terms in which the operations state their results:
//! `is_joined(a, b)` returns `set@[a].contains(b)`, `join(a, b)` turns `set@`
//! into `merged(set@, a, b)`, `add_singleton` turns it into
//! `set@.push(set![len])`, `sets` returns a listing of the classes of `set@`,
//! and `==` compares the views.

use vstd::arithmetic::power2::pow2;
use vstd::prelude::*;
use crate::disjoint_set::DisjointSet;
use crate::partition::is_partition;
use crate::partition::lemma_listed_once;
use crate::partition::lemma_listing_unique;
use crate::partition::lemma_merged_again;
use crate::partition::lemma_merged_commutes;
use crate::partition::lemma_merged_is_partition;
use crate::partition::lemma_merged_joins;
use crate::partition::lemma_merged_keeps;
use crate::partition::lists_classes;
use crate::partition::merged;
use vstd::std_specs::cmp::PartialEqSpec;

verus! {

/// The view of a structure is a partition of its indices.
pub proof fn law_partition(set: DisjointSet)
    ensures
        is_partition(set@),
{
    set.forest().lemma_partition();
}

/// Every element is joined with itself.
pub proof fn law_reflexive(set: DisjointSet, i: int)
    requires
        0 <= i < set@.len(),
    ensures
        set@[i].contains(i),
{
    set.forest().lemma_partition();
}

/// `a` is joined with `b` exactly if `b` is joined with `a`.
pub proof fn law_symmetric(set: DisjointSet, a: int, b: int)
    requires
        0 <= a < set@.len(),
        0 <= b < set@.len(),
    ensures
        set@[a].contains(b) == set@[b].contains(a),
{
    set.forest().lemma_partition();
}

/// What is joined with the same element is joined.
pub proof fn law_transitive(set: DisjointSet, a: int, b: int, c: int)
    requires
        0 <= a < set@.len(),
        0 <= b < set@.len(),
        0 <= c < set@.len(),
        set@[a].contains(b),
        set@[b].contains(c),
    ensures
        set@[a].contains(c),
{
    set.forest().lemma_partition();
}

/// After `join(a, b)` the two are joined, and a second `join(a, b)` finds them
/// joined and leaves the partition as it is.
pub proof fn law_join_joins(set: DisjointSet, a: int, b: int)
    requires
        0 <= a < set@.len(),
        0 <= b < set@.len(),
    ensures
        is_partition(merged(set@, a, b)),
        merged(set@, a, b)[a].contains(b),
        merged(merged(set@, a, b), a, b) == merged(set@, a, b),
{
    set.forest().lemma_partition();
    lemma_merged_is_partition(set@, a, b);
    lemma_merged_again(set@, a, b);
}

/// `join(a, b)` joins `i` and `j` exactly if they were joined or one is in
/// the class of `a` and the other in that of `b`.
pub proof fn law_join_exact(set: DisjointSet, a: int, b: int, i: int, j: int)
    requires
        0 <= a < set@.len(),
        0 <= b < set@.len(),
        0 <= i < set@.len(),
        0 <= j < set@.len(),
    ensures
        merged(set@, a, b)[i].contains(j) <==> (set@[i].contains(j) || (set@[a].contains(i)
            && set@[b].contains(j)) || (set@[b].contains(i) && set@[a].contains(j))),
{
    set.forest().lemma_partition();
    lemma_merged_joins(set@, a, b, i, j);
}

/// What is joined stays joined: neither a `join` nor a new element separates
/// two elements.  (Queries leave the partition as it is.)
pub proof fn law_joined_stays(set: DisjointSet, a: int, b: int, i: int, j: int)
    requires
        0 <= a < set@.len(),
        0 <= b < set@.len(),
        0 <= i < set@.len(),
        set@[i].contains(j),
    ensures
        merged(set@, a, b)[i].contains(j),
        set@.push(set![set@.len() as int])[i].contains(j),
{
    set.forest().lemma_partition();
    lemma_merged_keeps(set@, a, b, i, j);
}

/// A new element is joined to no element that was there before, and the
/// elements that were there are joined as before.
pub proof fn law_growth(set: DisjointSet, i: int, j: int)
    requires
        0 <= i < set@.len(),
        0 <= j < set@.len(),
    ensures
        is_partition(set@.push(set![set@.len() as int])),
        set@.push(set![set@.len() as int])[i].contains(j) == set@[i].contains(j),
        !set@.push(set![set@.len() as int])[i].contains(set@.len() as int),
        !set@.push(set![set@.len() as int])[set@.len() as int].contains(i),
{
    set.forest().lemma_partition();
    let p = set@;
    let q = p.push(set![p.len() as int]);
    assert forall|u: int, v: int| 0 <= u < q.len() && #[trigger] q[u].contains(v) implies 0 <= v
        < q.len() && q[v] == q[u] by {
        if u < p.len() {
            assert(p[u].contains(v));
        }
    }
}

/// Two structures are equal exactly if they have the same length and join
/// the same pairs of elements.
pub proof fn law_equality(left: DisjointSet, right: DisjointSet)
    ensures
        left.eq_spec(&right) <==> (left@.len() == right@.len() && forall|i: int, j: int|
            0 <= i < left@.len() && 0 <= j < left@.len() ==> (#[trigger] left@[i].contains(j)
                <==> right@[i].contains(j))),
{
    left.forest().lemma_partition();
    right.forest().lemma_partition();
    if left@.len() == right@.len() && forall|i: int, j: int|
        0 <= i < left@.len() && 0 <= j < left@.len() ==> (#[trigger] left@[i].contains(j)
            <==> right@[i].contains(j)) {
        assert forall|i: int| 0 <= i < left@.len() implies left@[i] == right@[i] by {
            assert forall|j: int| left@[i].contains(j) <==> right@[i].contains(j) by {
                if !(0 <= j < left@.len()) {
                    assert(!left@[i].contains(j));
                    assert(!right@[i].contains(j));
                }
            }
            assert(left@[i] =~= right@[i]);
        }
        assert(left@ =~= right@);
    }
}

/// The order of two joins does not matter to the partition: structures built
/// by the same joins in another order are equal.
pub proof fn law_join_order(set: DisjointSet, a: int, b: int, c: int, d: int)
    requires
        0 <= a < set@.len(),
        0 <= b < set@.len(),
        0 <= c < set@.len(),
        0 <= d < set@.len(),
    ensures
        merged(merged(set@, a, b), c, d) == merged(merged(set@, c, d), a, b),
        merged(set@, a, b) == merged(set@, b, a),
{
    set.forest().lemma_partition();
    lemma_merged_commutes(set@, a, b, c, d);
    assert forall|i: int| 0 <= i < set@.len() implies merged(set@, a, b)[i] == merged(
        set@,
        b,
        a,
    )[i] by {
        assert(set@[a].union(set@[b]) =~= set@[b].union(set@[a]));
    }
    assert(merged(set@, a, b) =~= merged(set@, b, a));
}

/// The classes of a partition can be listed in one way only: what `sets`
/// returns is determined by the partition, not by the parent pointers.
pub proof fn law_sets_unique(set: DisjointSet, first: Seq<Seq<int>>, second: Seq<Seq<int>>)
    requires
        lists_classes(first, set@),
        lists_classes(second, set@),
    ensures
        first == second,
{
    set.forest().lemma_partition();
    lemma_listing_unique(first, second, set@);
}

/// What `sets` returns holds every index once: in one group, at one place.
pub proof fn law_sets_once(set: DisjointSet, groups: Seq<Seq<int>>, g: int, x: int, h: int, y: int)
    requires
        lists_classes(groups, set@),
        0 <= g < groups.len(),
        0 <= x < groups[g].len(),
        0 <= h < groups.len(),
        0 <= y < groups[h].len(),
        groups[g][x] == groups[h][y],
    ensures
        g == h,
        x == y,
{
    set.forest().lemma_partition();
    lemma_listed_once(groups, set@, g, x, h, y);
}

/// Trees stay low: from every element the root is reached in `k` steps along
/// the parent pointers, for a `k` with `2^k <= len`.
pub proof fn law_height(set: DisjointSet, i: int) -> (k: nat)
    requires
        set.wf(),
        0 <= i < set@.len(),
    ensures
        pow2(k) <= set@.len(),
        set.forest().ancestor(i, k) == set.forest().root(i),
{
    set.forest().lemma_height(i);
    set.forest().rank[set.forest().root(i)] as nat
}

} // verus!
