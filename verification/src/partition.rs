//! Partitions of `0..n`, written as the sequence that gives each index its
//! class.

use vstd::prelude::*;

verus! {

/// `p` is a partition of `0..p.len()`: every index lies in its own class,
/// classes hold indices only, and the members of a class all have that class.
pub open spec fn is_partition(p: Seq<Set<int>>) -> bool {
    &&& forall|i: int| 0 <= i < p.len() ==> #[trigger] p[i].contains(i)
    &&& forall|i: int, j: int|
        0 <= i < p.len() && #[trigger] p[i].contains(j) ==> 0 <= j < p.len() && p[j] == p[i]
}

/// The partition of `0..n` in which every index is alone.
pub open spec fn singletons(n: nat) -> Seq<Set<int>> {
    Seq::new(n, |i: int| set![i])
}

/// The partition `p` after the classes of `a` and `b` have been made one.
pub open spec fn merged(p: Seq<Set<int>>, a: int, b: int) -> Seq<Set<int>> {
    Seq::new(
        p.len(),
        |i: int|
            if p[a].contains(i) || p[b].contains(i) {
                p[a].union(p[b])
            } else {
                p[i]
            },
    )
}

/// The index `i` stands in one of the `groups`.
pub open spec fn listed(groups: Seq<Seq<int>>, i: int) -> bool {
    exists|g: int, x: int|
        0 <= g < groups.len() && 0 <= x < groups[g].len() && #[trigger] groups[g][x] == i
}

/// `groups` lists the indices below `k` by their classes in `p`:
///
/// * every index below `k` stands in a group, no group is empty and no group
///   holds anything else;
/// * within a group the indices ascend;
/// * the groups are ordered by their first, which is their smallest, index;
/// * two listed indices are in the same class exactly if they stand in the
///   same group.
pub open spec fn lists_classes_below(groups: Seq<Seq<int>>, p: Seq<Set<int>>, k: int) -> bool {
    &&& forall|g: int| 0 <= g < groups.len() ==> (#[trigger] groups[g]).len() > 0
    &&& forall|g: int, x: int|
        0 <= g < groups.len() && 0 <= x < groups[g].len() ==> 0 <= #[trigger] groups[g][x] < k
    &&& forall|i: int| 0 <= i < k ==> #[trigger] listed(groups, i)
    &&& forall|g: int, x: int, y: int|
        0 <= g < groups.len() && 0 <= x < y < groups[g].len() ==> #[trigger] groups[g][x]
            < #[trigger] groups[g][y]
    &&& forall|g: int, h: int|
        0 <= g < h < groups.len() ==> (#[trigger] groups[g])[0] < (#[trigger] groups[h])[0]
    &&& forall|g: int, x: int, h: int, y: int|
        0 <= g < groups.len() && 0 <= x < groups[g].len() && 0 <= h < groups.len() && 0 <= y
            < groups[h].len() ==> (p[#[trigger] groups[g][x]].contains(#[trigger] groups[h][y])
            <==> g == h)
}

/// `groups` lists the classes of `p`: one group for each class, the indices
/// ascending within a group, and the groups ordered by their smallest index.
pub open spec fn lists_classes(groups: Seq<Seq<int>>, p: Seq<Set<int>>) -> bool {
    lists_classes_below(groups, p, p.len() as int)
}

/// Nothing is listed below 0.
pub proof fn lemma_list_nothing(p: Seq<Set<int>>)
    ensures
        lists_classes_below(Seq::empty(), p, 0),
{
}

/// The next index joins the group of its class, at the end.
pub proof fn lemma_list_in_group(groups: Seq<Seq<int>>, p: Seq<Set<int>>, k: int, id: int)
    requires
        is_partition(p),
        lists_classes_below(groups, p, k),
        0 <= k < p.len(),
        0 <= id < groups.len(),
        p[k].contains(groups[id][0]),
    ensures
        lists_classes_below(groups.update(id, groups[id].push(k)), p, k + 1),
{
    let after = groups.update(id, groups[id].push(k));
    let first = groups[id][0];
    assert(0 <= first < k);
    assert(p[first] == p[k]);
    assert forall|g: int, x: int| 0 <= g < after.len() && 0 <= x < after[g].len() implies (0
        <= #[trigger] after[g][x] < k + 1 && (after[g][x] == k || (x < groups[g].len()
        && after[g][x] == groups[g][x]))) by {
        if x < groups[g].len() {
            assert(after[g][x] == groups[g][x]);
        }
    }
    assert forall|i: int| 0 <= i < k + 1 implies #[trigger] listed(after, i) by {
        if i < k {
            assert(listed(groups, i));
            let (g, x) = choose|g: int, x: int|
                0 <= g < groups.len() && 0 <= x < groups[g].len() && #[trigger] groups[g][x] == i;
            assert(after[g][x] == i);
        } else {
            assert(after[id][groups[id].len() as int] == k);
        }
    }
    assert forall|g: int, x: int, y: int|
        0 <= g < after.len() && 0 <= x < y < after[g].len() implies #[trigger] after[g][x]
        < #[trigger] after[g][y] by {
        assert(after[g][x] == groups[g][x]);
        if y < groups[g].len() {
            assert(after[g][y] == groups[g][y]);
        }
    }
    assert forall|g: int, h: int| 0 <= g < h < after.len() implies (#[trigger] after[g])[0] < (
    #[trigger] after[h])[0] by {
        assert(groups[g].len() > 0 && groups[h].len() > 0);
        assert(after[g][0] == groups[g][0]);
        assert(after[h][0] == groups[h][0]);
    }
    assert forall|g: int, x: int, h: int, y: int|
        0 <= g < after.len() && 0 <= x < after[g].len() && 0 <= h < after.len() && 0 <= y
            < after[h].len() implies (p[#[trigger] after[g][x]].contains(#[trigger] after[h][y])
        <==> g == h) by {
        let a = after[g][x];
        let b = after[h][y];
        assert(groups[g].len() > 0 && groups[h].len() > 0);
        // Each listed index is in the class of the first index of its group.
        assert(p[a] == p[groups[g][0]]) by {
            if a == k {
                assert(g == id) by {
                    if x < groups[g].len() {
                        assert(groups[g][x] < k);
                    }
                }
            } else {
                assert(a == groups[g][x]);
                assert(p[groups[g][x]].contains(groups[g][0]));
            }
        }
        assert(p[b] == p[groups[h][0]]) by {
            if b == k {
                assert(h == id) by {
                    if y < groups[h].len() {
                        assert(groups[h][y] < k);
                    }
                }
            } else {
                assert(b == groups[h][y]);
                assert(p[groups[h][y]].contains(groups[h][0]));
            }
        }
        assert(p[groups[g][0]].contains(groups[h][0]) <==> g == h);
        assert(p[b].contains(b));
        assert(p[groups[h][0]].contains(groups[h][0]));
    }
}

/// The next index opens a group of its own, at the end, if no earlier index is
/// in its class.
pub proof fn lemma_list_new_group(groups: Seq<Seq<int>>, p: Seq<Set<int>>, k: int)
    requires
        is_partition(p),
        lists_classes_below(groups, p, k),
        0 <= k < p.len(),
        forall|g: int| 0 <= g < groups.len() ==> !p[k].contains((#[trigger] groups[g])[0]),
    ensures
        lists_classes_below(groups.push(seq![k]), p, k + 1),
{
    let after = groups.push(seq![k]);
    let last = groups.len() as int;
    assert forall|g: int, x: int| 0 <= g < after.len() && 0 <= x < after[g].len() implies (0
        <= #[trigger] after[g][x] < k + 1 && (if g == last {
        after[g][x] == k
    } else {
        after[g][x] == groups[g][x]
    })) by {}
    assert forall|i: int| 0 <= i < k + 1 implies #[trigger] listed(after, i) by {
        if i < k {
            assert(listed(groups, i));
            let (g, x) = choose|g: int, x: int|
                0 <= g < groups.len() && 0 <= x < groups[g].len() && #[trigger] groups[g][x] == i;
            assert(after[g][x] == i);
        } else {
            assert(after[last][0] == k);
        }
    }
    assert forall|g: int, x: int, y: int|
        0 <= g < after.len() && 0 <= x < y < after[g].len() implies #[trigger] after[g][x]
        < #[trigger] after[g][y] by {
        assert(g != last);
        assert(after[g][x] == groups[g][x]);
        assert(after[g][y] == groups[g][y]);
    }
    assert forall|g: int, h: int| 0 <= g < h < after.len() implies (#[trigger] after[g])[0] < (
    #[trigger] after[h])[0] by {
        assert(groups[g].len() > 0);
        assert(after[g][0] == groups[g][0]);
        if h == last {
            assert(groups[g][0] < k);
        } else {
            assert(groups[h].len() > 0);
            assert(after[h][0] == groups[h][0]);
        }
    }
    assert forall|g: int, x: int, h: int, y: int|
        0 <= g < after.len() && 0 <= x < after[g].len() && 0 <= h < after.len() && 0 <= y
            < after[h].len() implies (p[#[trigger] after[g][x]].contains(#[trigger] after[h][y])
        <==> g == h) by {
        let a = after[g][x];
        let b = after[h][y];
        assert(p[a].contains(a));
        assert(p[b].contains(b));
        if g != last {
            assert(groups[g].len() > 0);
            assert(a == groups[g][x]);
            assert(p[groups[g][x]].contains(groups[g][0]));
            assert(p[a] == p[groups[g][0]]);
            assert(!p[k].contains(groups[g][0]));
        }
        if h != last {
            assert(groups[h].len() > 0);
            assert(b == groups[h][y]);
            assert(p[groups[h][y]].contains(groups[h][0]));
            assert(p[b] == p[groups[h][0]]);
            assert(!p[k].contains(groups[h][0]));
        }
        if g != last && h != last {
            assert(p[groups[g][x]].contains(groups[h][y]) <==> g == h);
        }
    }
}

/// Merging two classes of a partition gives a partition.
pub proof fn lemma_merged_is_partition(p: Seq<Set<int>>, a: int, b: int)
    requires
        is_partition(p),
        0 <= a < p.len(),
        0 <= b < p.len(),
    ensures
        is_partition(merged(p, a, b)),
        merged(p, a, b).len() == p.len(),
{
    let q = merged(p, a, b);
    assert forall|i: int, j: int| 0 <= i < q.len() && #[trigger] q[i].contains(j) implies 0 <= j
        < q.len() && q[j] == q[i] by {
        if p[a].contains(i) || p[b].contains(i) {
            assert(p[a].contains(j) || p[b].contains(j));
        } else {
            assert(p[i].contains(j));
            assert(p[j] == p[i]);
            if p[a].contains(j) {
                assert(p[j] == p[a]);
            }
            if p[b].contains(j) {
                assert(p[j] == p[b]);
            }
        }
    }
}

/// After a merge `a` and `b` are in one class; merging them again changes
/// nothing.
pub proof fn lemma_merged_again(p: Seq<Set<int>>, a: int, b: int)
    requires
        is_partition(p),
        0 <= a < p.len(),
        0 <= b < p.len(),
    ensures
        merged(p, a, b)[a].contains(b),
        merged(p, a, b)[b].contains(a),
        merged(merged(p, a, b), a, b) == merged(p, a, b),
{
    let q = merged(p, a, b);
    assert(p[a].contains(a));
    assert(p[b].contains(b));
    assert(q[a] == p[a].union(p[b]));
    assert(q[b] == p[a].union(p[b]));
    assert forall|i: int| 0 <= i < p.len() implies merged(q, a, b)[i] == q[i] by {
        if q[a].contains(i) || q[b].contains(i) {
            assert(q[a].union(q[b]) =~= q[a]);
        }
    }
    assert(merged(q, a, b) =~= q);
}

/// A merge separates nothing: what was in one class stays in one class.
pub proof fn lemma_merged_keeps(p: Seq<Set<int>>, a: int, b: int, i: int, j: int)
    requires
        is_partition(p),
        0 <= a < p.len(),
        0 <= b < p.len(),
        0 <= i < p.len(),
        p[i].contains(j),
    ensures
        merged(p, a, b)[i].contains(j),
{
    assert(p[j] == p[i]);
    if p[a].contains(i) {
        assert(p[i] == p[a]);
    }
    if p[b].contains(i) {
        assert(p[i] == p[b]);
    }
}

/// A merge joins exactly what was joined before and what one of the two
/// classes brings together.
pub proof fn lemma_merged_joins(p: Seq<Set<int>>, a: int, b: int, i: int, j: int)
    requires
        is_partition(p),
        0 <= a < p.len(),
        0 <= b < p.len(),
        0 <= i < p.len(),
        0 <= j < p.len(),
    ensures
        merged(p, a, b)[i].contains(j) <==> (p[i].contains(j) || (p[a].contains(i)
            && p[b].contains(j)) || (p[b].contains(i) && p[a].contains(j))),
{
    assert(p[i].contains(i));
    assert(p[j].contains(j));
    if p[a].contains(i) {
        assert(p[i] == p[a]);
    }
    if p[b].contains(i) {
        assert(p[i] == p[b]);
    }
    if p[i].contains(j) {
        assert(p[j] == p[i]);
    }
}

/// The order of two merges does not matter.
pub proof fn lemma_merged_commutes(p: Seq<Set<int>>, a: int, b: int, c: int, d: int)
    requires
        is_partition(p),
        0 <= a < p.len(),
        0 <= b < p.len(),
        0 <= c < p.len(),
        0 <= d < p.len(),
    ensures
        merged(merged(p, a, b), c, d) == merged(merged(p, c, d), a, b),
{
    let q = merged(p, a, b);
    let r = merged(p, c, d);
    lemma_merged_is_partition(p, a, b);
    lemma_merged_is_partition(p, c, d);
    lemma_merged_is_partition(q, c, d);
    lemma_merged_is_partition(r, a, b);
    let x = merged(q, c, d);
    let y = merged(r, a, b);
    assert forall|i: int| 0 <= i < p.len() implies x[i] == y[i] by {
        assert forall|j: int| x[i].contains(j) <==> y[i].contains(j) by {
            if 0 <= j < p.len() {
                lemma_joined_twice(p, a, b, c, d, i, j);
                lemma_joined_twice(p, c, d, a, b, i, j);
            } else {
                assert(!x[i].contains(j));
                assert(!y[i].contains(j));
            }
        }
        assert(x[i] =~= y[i]);
    }
    assert(x =~= y);
}

/// What two merges, of `a` with `b` and then of `c` with `d`, bring together.
proof fn lemma_joined_twice(p: Seq<Set<int>>, a: int, b: int, c: int, d: int, i: int, j: int)
    requires
        is_partition(p),
        0 <= a < p.len(),
        0 <= b < p.len(),
        0 <= c < p.len(),
        0 <= d < p.len(),
        0 <= i < p.len(),
        0 <= j < p.len(),
    ensures
        merged(merged(p, a, b), c, d)[i].contains(j) <==> reach(p, a, b, c, d, i, j),
{
    let q = merged(p, a, b);
    lemma_merged_is_partition(p, a, b);
    lemma_merged_joins(q, c, d, i, j);
    lemma_merged_joins(p, a, b, i, j);
    lemma_merged_joins(p, a, b, c, i);
    lemma_merged_joins(p, a, b, d, j);
    lemma_merged_joins(p, a, b, d, i);
    lemma_merged_joins(p, a, b, c, j);
    assert(p[a].contains(a) && p[b].contains(b) && p[c].contains(c) && p[d].contains(d));
    assert(p[i].contains(i) && p[j].contains(j));
    assert forall|u: int, v: int| 0 <= u < p.len() && p[u].contains(v) implies p[v] == p[u]
        && p[v].contains(u) by {}
}

/// `i` and `j` are in one class of `p`, or come into one when the classes of
/// `a` and `b` are made one and then those of `c` and `d`.
spec fn reach(p: Seq<Set<int>>, a: int, b: int, c: int, d: int, i: int, j: int) -> bool {
    let ab = |u: int, v: int|
        p[u].contains(v) || (p[a].contains(u) && p[b].contains(v)) || (p[b].contains(u)
            && p[a].contains(v));
    ab(i, j) || (ab(c, i) && ab(d, j)) || (ab(d, i) && ab(c, j))
}

/// A listing of the classes of `p` holds every index once only.
pub proof fn lemma_listed_once(
    groups: Seq<Seq<int>>,
    p: Seq<Set<int>>,
    g: int,
    x: int,
    h: int,
    y: int,
)
    requires
        is_partition(p),
        lists_classes(groups, p),
        0 <= g < groups.len(),
        0 <= x < groups[g].len(),
        0 <= h < groups.len(),
        0 <= y < groups[h].len(),
        groups[g][x] == groups[h][y],
    ensures
        g == h,
        x == y,
{
    let i = groups[g][x];
    assert(0 <= i < p.len());
    assert(p[i].contains(i));
    assert(p[groups[g][x]].contains(groups[h][y]));
    if x < y {
        assert(groups[g][x] < groups[g][y]);
    }
    if y < x {
        assert(groups[g][y] < groups[g][x]);
    }
}

/// The elements of `s` ascend strictly.
pub open spec fn ascending(s: Seq<int>) -> bool {
    forall|x: int, y: int| 0 <= x < y < s.len() ==> s[x] < s[y]
}

/// The first index of each group.
pub open spec fn firsts(groups: Seq<Seq<int>>) -> Seq<int> {
    Seq::new(groups.len(), |g: int| groups[g][0])
}

/// Two ascending sequences with the same elements are the same sequence.
pub proof fn lemma_ascending_unique(s: Seq<int>, t: Seq<int>)
    requires
        ascending(s),
        ascending(t),
        forall|v: int| s.contains(v) <==> t.contains(v),
    ensures
        s == t,
    decreases s.len(),
{
    if s.len() == 0 {
        if t.len() > 0 {
            assert(t.contains(t[0]));
        }
        assert(s =~= t);
    } else {
        assert(s.contains(s[0]));
        assert(t.contains(s[0]));
        assert(t.contains(t[0]));
        assert(s.contains(t[0]));
        assert(s[0] == t[0]);
        let s1 = s.drop_first();
        let t1 = t.drop_first();
        assert forall|v: int| s1.contains(v) <==> t1.contains(v) by {
            if s1.contains(v) {
                let x = choose|x: int| 0 <= x < s1.len() && s1[x] == v;
                assert(s[x + 1] == v);
                assert(s.contains(v));
                let y = choose|y: int| 0 <= y < t.len() && t[y] == v;
                assert(t1[y - 1] == v);
            }
            if t1.contains(v) {
                let y = choose|y: int| 0 <= y < t1.len() && t1[y] == v;
                assert(t[y + 1] == v);
                assert(t.contains(v));
                let x = choose|x: int| 0 <= x < s.len() && s[x] == v;
                assert(s1[x - 1] == v);
            }
        }
        lemma_ascending_unique(s1, t1);
        assert(s =~= seq![s[0]] + s1);
        assert(t =~= seq![t[0]] + t1);
    }
}

/// In a listing of the classes of `p`, whatever leads a group of one listing
/// leads a group of every other.
proof fn lemma_first_in_both(g1: Seq<Seq<int>>, g2: Seq<Seq<int>>, p: Seq<Set<int>>, x: int)
    requires
        is_partition(p),
        lists_classes(g1, p),
        lists_classes(g2, p),
        0 <= x < g1.len(),
    ensures
        firsts(g2).contains(g1[x][0]),
{
    let v = g1[x][0];
    assert(g1[x].len() > 0);
    assert(0 <= v < p.len());
    assert(listed(g2, v));
    let (h, y) = choose|h: int, y: int|
        0 <= h < g2.len() && 0 <= y < g2[h].len() && #[trigger] g2[h][y] == v;
    if y > 0 {
        let w = g2[h][0];
        assert(w < v);
        assert(p[g2[h][0]].contains(g2[h][y]));
        assert(0 <= w < p.len());
        assert(listed(g1, w));
        let (k, z) = choose|k: int, z: int|
            0 <= k < g1.len() && 0 <= z < g1[k].len() && #[trigger] g1[k][z] == w;
        assert(p[g1[k][z]].contains(g1[x][0]));
        assert(k == x);
        if z > 0 {
            assert(g1[x][0] < g1[x][z]);
        }
        assert(false);
    }
    assert(firsts(g2)[h] == v);
}

/// In a listing of the classes of `p`, a group holds nothing but the class of
/// its first index, and all of it.
proof fn lemma_group_in_both(
    g1: Seq<Seq<int>>,
    g2: Seq<Seq<int>>,
    p: Seq<Set<int>>,
    x: int,
    v: int,
)
    requires
        is_partition(p),
        lists_classes(g1, p),
        lists_classes(g2, p),
        0 <= x < g1.len(),
        x < g2.len(),
        g1[x][0] == g2[x][0],
        g1[x].contains(v),
    ensures
        g2[x].contains(v),
{
    let z = choose|z: int| 0 <= z < g1[x].len() && g1[x][z] == v;
    assert(g1[x].len() > 0 && g2[x].len() > 0);
    assert(p[g1[x][0]].contains(g1[x][z]));
    assert(0 <= v < p.len());
    assert(listed(g2, v));
    let (h, y) = choose|h: int, y: int|
        0 <= h < g2.len() && 0 <= y < g2[h].len() && #[trigger] g2[h][y] == v;
    assert(p[g2[x][0]].contains(g2[h][y]));
    assert(h == x);
}

/// A partition has one listing of its classes only.
pub proof fn lemma_listing_unique(g1: Seq<Seq<int>>, g2: Seq<Seq<int>>, p: Seq<Set<int>>)
    requires
        is_partition(p),
        lists_classes(g1, p),
        lists_classes(g2, p),
    ensures
        g1 == g2,
{
    let f1 = firsts(g1);
    let f2 = firsts(g2);
    assert(ascending(f1)) by {
        assert forall|x: int, y: int| 0 <= x < y < f1.len() implies f1[x] < f1[y] by {
            assert(g1[x][0] < g1[y][0]);
        }
    }
    assert(ascending(f2)) by {
        assert forall|x: int, y: int| 0 <= x < y < f2.len() implies f2[x] < f2[y] by {
            assert(g2[x][0] < g2[y][0]);
        }
    }
    assert forall|v: int| f1.contains(v) <==> f2.contains(v) by {
        if f1.contains(v) {
            let x = choose|x: int| 0 <= x < f1.len() && f1[x] == v;
            lemma_first_in_both(g1, g2, p, x);
        }
        if f2.contains(v) {
            let x = choose|x: int| 0 <= x < f2.len() && f2[x] == v;
            lemma_first_in_both(g2, g1, p, x);
        }
    }
    lemma_ascending_unique(f1, f2);
    assert(g1.len() == g2.len());
    assert forall|x: int| 0 <= x < g1.len() implies g1[x] == g2[x] by {
        assert(f1[x] == f2[x]);
        assert(g1[x][0] == g2[x][0]);
        assert(ascending(g1[x])) by {
            assert forall|y: int, z: int| 0 <= y < z < g1[x].len() implies g1[x][y]
                < g1[x][z] by {}
        }
        assert(ascending(g2[x])) by {
            assert forall|y: int, z: int| 0 <= y < z < g2[x].len() implies g2[x][y]
                < g2[x][z] by {}
        }
        assert forall|v: int| g1[x].contains(v) <==> g2[x].contains(v) by {
            if g1[x].contains(v) {
                lemma_group_in_both(g1, g2, p, x, v);
            }
            if g2[x].contains(v) {
                lemma_group_in_both(g2, g1, p, x, v);
            }
        }
        lemma_ascending_unique(g1[x], g2[x]);
    }
    assert(g1 =~= g2);
}

} // verus!
