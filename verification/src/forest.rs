//! The mathematical model of a union-find forest: parent pointers, ranks, and
//! the partition of `0..len` that they induce.

use crate::partition::is_partition;
use crate::partition::merged;
use crate::partition::singletons;
use vstd::arithmetic::power2::lemma2_to64;
use vstd::arithmetic::power2::lemma_pow2_strictly_increases;
use vstd::arithmetic::power2::lemma_pow2_unfold;
use vstd::arithmetic::power2::pow2;
use vstd::prelude::*;
use vstd::set_lib::lemma_int_range;
use vstd::set_lib::lemma_len_subset;
use vstd::set_lib::lemma_set_disjoint_lens;
use vstd::set_lib::set_int_range;

verus! {

/// A forest of parent pointers over the indices `0..len`.
///
/// `parent[i] == i` marks `i` as a root.  `rank[i]` bounds the height of the
/// tree below a root `i`; for other nodes it only records the rank the node
/// had when it stopped being a root.
pub struct Forest {
    pub parent: Seq<usize>,
    pub rank: Seq<u8>,
}

impl Forest {
    /// Number of elements.
    pub open spec fn len(self) -> nat {
        self.parent.len()
    }

    /// `i` is an element of the forest.
    pub open spec fn has(self, i: int) -> bool {
        0 <= i < self.parent.len()
    }

    /// `i` is the representative of its tree.
    pub open spec fn is_root(self, i: int) -> bool {
        self.parent[i] == i
    }

    /// Parent pointers stay inside the forest and lead to strictly larger
    /// ranks, so following them always ends at a root.
    pub open spec fn shape_ok(self) -> bool {
        &&& self.rank.len() == self.parent.len()
        &&& forall|i: int|
            #![trigger self.parent[i]]
            self.has(i) ==> self.has(self.parent[i] as int)
        &&& forall|i: int|
            #![trigger self.parent[i]]
            self.has(i) && self.parent[i] != i ==> self.rank[i] < self.rank[self.parent[i] as int]
    }

    /// The root reached from `i` by following parent pointers.  The walk goes
    /// on only while the parent pointer leads to an element of larger rank:
    /// in a well-shaped forest that is up to the root.
    pub open spec fn root(self, i: int) -> int
        decreases 256 - self.rank[i],
    {
        let p = self.parent[i] as int;
        if self.has(i) && self.has(p) && p != i && i < self.rank.len() && p < self.rank.len()
            && self.rank[i] < self.rank[p] {
            self.root(p)
        } else {
            i
        }
    }

    /// `a` and `b` belong to the same tree.
    pub open spec fn joined(self, a: int, b: int) -> bool {
        self.root(a) == self.root(b)
    }

    /// The elements joined with `i`.
    pub open spec fn class(self, i: int) -> Set<int> {
        Set::new(|j: int| self.has(j) && self.root(j) == self.root(i))
    }

    /// The partition of `0..len` induced by the forest: entry `i` is the class
    /// of `i`.
    pub open spec fn partition(self) -> Seq<Set<int>> {
        Seq::new(self.len(), |i: int| self.class(i))
    }

    /// A root of rank `r` represents at least `2^r` elements.
    pub open spec fn sizes_ok(self) -> bool {
        forall|r: int|
            #![trigger self.parent[r]]
            self.has(r) && self.is_root(r) ==> pow2(self.rank[r] as nat) <= self.class(r).len()
    }

    /// The invariant of a union-find forest.
    pub open spec fn wf(self) -> bool {
        &&& self.shape_ok()
        &&& self.sizes_ok()
    }

    /// The forest without elements.
    pub open spec fn empty() -> Forest {
        Forest { parent: Seq::empty(), rank: Seq::empty() }
    }

    /// The forest of `n` elements that are all roots of rank 0.
    pub open spec fn fresh(n: nat) -> Forest {
        Forest { parent: Seq::new(n, |i: int| i as usize), rank: Seq::new(n, |i: int| 0u8) }
    }

    /// The forest with one more element, a root of rank 0 in a tree of its
    /// own.
    pub open spec fn grown(self) -> Forest {
        Forest { parent: self.parent.push(self.len() as usize), rank: self.rank.push(0u8) }
    }

    /// The node reached from `i` after `k` steps along parent pointers.
    pub open spec fn ancestor(self, i: int, k: nat) -> int
        decreases k,
    {
        if k == 0 {
            i
        } else {
            self.parent[self.ancestor(i, (k - 1) as nat)] as int
        }
    }

    /// `j` lies on the path from `i` to its root (both ends included).
    pub open spec fn on_path(self, i: int, j: int) -> bool {
        exists|k: nat| self.ancestor(i, k) == j
    }

    /// The forest after resolving the root of `i`: every node on the path from
    /// `i` to its root points to its former grandparent, and nothing else
    /// changes.
    pub open spec fn split_path(self, i: int) -> Forest {
        Forest {
            parent: Seq::new(
                self.parent.len(),
                |j: int|
                    if self.on_path(i, j) {
                        self.parent[self.parent[j] as int]
                    } else {
                        self.parent[j]
                    },
            ),
            rank: self.rank,
        }
    }

    /// The forest after the roots of the elements `0..k` have been resolved in
    /// ascending order.
    pub open spec fn split_paths(self, k: nat) -> Forest
        decreases k,
    {
        if k == 0 {
            self
        } else {
            self.split_paths((k - 1) as nat).split_path(k - 1)
        }
    }

    /// Of two distinct roots, the one that stays a root when they are linked:
    /// the one of larger rank, and `a` on a tie.
    pub open spec fn link_parent(self, a: int, b: int) -> int {
        if self.rank[a] < self.rank[b] {
            b
        } else {
            a
        }
    }

    /// Of two distinct roots, the one that is put below the other.
    pub open spec fn link_child(self, a: int, b: int) -> int {
        if self.rank[a] < self.rank[b] {
            a
        } else {
            b
        }
    }

    /// Union by rank of the trees of the distinct roots `a` and `b`: the root
    /// of smaller rank is put below the other; on a tie `b` is put below `a`
    /// and the rank of `a` grows by one.
    pub open spec fn link(self, a: int, b: int) -> Forest {
        Forest {
            parent: self.parent.update(self.link_child(a, b), self.link_parent(a, b) as usize),
            rank: if self.rank[a] == self.rank[b] {
                self.rank.update(a, (self.rank[a] + 1) as u8)
            } else {
                self.rank
            },
        }
    }

    /// The forest after `join(a, b)`.  Nothing changes when `a` and `b` share
    /// their parent.  Otherwise both roots are resolved, `a` first, and the
    /// two trees are linked unless they are one.
    pub open spec fn join(self, a: int, b: int) -> Forest {
        if self.parent[a] == self.parent[b] {
            self
        } else if self.root(a) == self.root(b) {
            self.split_path(a).split_path(b)
        } else {
            self.split_path(a).split_path(b).link(self.root(a), self.root(b))
        }
    }

    /// The root of an element is an element, whatever the shape of the forest.
    pub proof fn lemma_root_has(self, i: int)
        requires
            self.has(i),
        ensures
            self.has(self.root(i)),
        decreases 256 - self.rank[i],
    {
        let p = self.parent[i] as int;
        if self.root(i) != i {
            self.lemma_root_has(p);
        }
    }

    /// Facts about the root of `i` in a well-shaped forest.
    pub proof fn lemma_root(self, i: int)
        requires
            self.shape_ok(),
            self.has(i),
        ensures
            self.has(self.root(i)),
            self.is_root(self.root(i)),
            self.root(self.root(i)) == self.root(i),
            self.root(self.parent[i] as int) == self.root(i),
            self.rank[i] <= self.rank[self.root(i)],
            self.is_root(i) <==> self.root(i) == i,
            !self.is_root(i) ==> self.rank[i] < self.rank[self.root(i)],
        decreases 256 - self.rank[i],
    {
        if self.parent[i] != i {
            self.lemma_root(self.parent[i] as int);
        }
    }

    /// Elements that share their parent are joined.
    pub proof fn lemma_same_parent(self, a: int, b: int)
        requires
            self.shape_ok(),
            self.has(a),
            self.has(b),
            self.parent[a] == self.parent[b],
        ensures
            self.joined(a, b),
    {
        self.lemma_root(a);
        self.lemma_root(b);
    }

    /// Every class is a finite subset of `0..len` and contains its own index.
    pub proof fn lemma_class(self, i: int)
        requires
            self.has(i),
        ensures
            self.class(i).finite(),
            self.class(i).len() <= self.len(),
            self.class(i).contains(i),
            self.class(i).len() >= 1,
    {
        lemma_int_range(0, self.len() as int);
        lemma_len_subset(self.class(i), set_int_range(0, self.len() as int));
        if self.class(i).len() == 0 {
            self.class(i).lemma_len0_is_empty();
        }
    }

    /// The partition holds, for every element, exactly the elements joined
    /// with it.
    pub proof fn lemma_partition(self)
        ensures
            is_partition(self.partition()),
            self.partition().len() == self.len(),
            forall|i: int, j: int|
                self.has(i) && self.has(j) ==> (#[trigger] self.partition()[i].contains(j)
                    <==> self.joined(i, j)),
    {
        let p = self.partition();
        assert forall|i: int, j: int| 0 <= i < p.len() && #[trigger] p[i].contains(j) implies 0
            <= j < p.len() && p[j] == p[i] by {
            assert(self.class(i) =~= self.class(j));
        }
    }

    /// In a fresh forest every element is alone in its class.
    pub proof fn lemma_fresh(n: nat)
        requires
            n <= usize::MAX,
        ensures
            Self::fresh(n).wf(),
            Self::fresh(n).partition() == singletons(n),
            forall|j: int| 0 <= j < n ==> Self::fresh(n).root(j) == j,
    {
        let f = Self::fresh(n);
        assert forall|i: int| f.has(i) implies f.class(i) == set![i] by {
            assert(f.class(i) =~= set![i]);
        }
        assert(f.partition() =~= singletons(n));
        assert forall|r: int| f.has(r) && f.is_root(r) implies pow2(f.rank[r] as nat)
            <= f.class(r).len() by {
            lemma2_to64();
        }
    }

    /// A fresh forest grows into a fresh forest; the empty forest is fresh.
    pub proof fn lemma_fresh_grown(n: nat)
        requires
            n <= usize::MAX,
        ensures
            Self::fresh(0) == Self::empty(),
            Self::fresh(n).grown() == Self::fresh(n + 1),
    {
        assert(Self::fresh(0).parent =~= Self::empty().parent);
        assert(Self::fresh(0).rank =~= Self::empty().rank);
        assert(Self::fresh(n).grown().parent =~= Self::fresh(n + 1).parent);
        assert(Self::fresh(n).grown().rank =~= Self::fresh(n + 1).rank);
    }

    /// A new element is alone in its class; nothing else changes.
    pub proof fn lemma_grown(self)
        requires
            self.wf(),
            self.len() <= usize::MAX,
        ensures
            self.grown().wf(),
            self.grown().partition() == self.partition().push(set![self.len() as int]),
            self.grown().root(self.len() as int) == self.len(),
            forall|j: int| self.has(j) ==> self.grown().root(j) == self.root(j),
    {
        let g = self.grown();
        let n = self.len() as int;
        assert forall|j: int| self.has(j) implies g.root(j) == self.root(j) by {
            self.lemma_grown_root(j);
        }
        assert forall|j: int| self.has(j) implies g.root(j) != n by {
            self.lemma_root(j);
        }
        assert forall|i: int| self.has(i) implies g.class(i) == self.class(i) by {
            assert(g.class(i) =~= self.class(i));
        }
        assert(g.class(n) =~= set![n]);
        assert(g.partition() =~= self.partition().push(set![n]));
        assert forall|r: int| g.has(r) && g.is_root(r) implies pow2(g.rank[r] as nat)
            <= g.class(r).len() by {
            if r == n {
                lemma2_to64();
            } else {
                assert(self.parent[r] == r);
            }
        }
    }

    /// A new element changes no root.
    proof fn lemma_grown_root(self, j: int)
        requires
            self.shape_ok(),
            self.has(j),
        ensures
            self.grown().root(j) == self.root(j),
        decreases 256 - self.rank[j],
    {
        let p = self.parent[j] as int;
        assert(self.has(p));
        if p != j {
            self.lemma_grown_root(p);
        }
    }

    /// Ancestors stay in the forest, keep the root, and never lose rank.
    pub proof fn lemma_ancestor(self, i: int, k: nat)
        requires
            self.shape_ok(),
            self.has(i),
        ensures
            self.has(self.ancestor(i, k)),
            self.root(self.ancestor(i, k)) == self.root(i),
            self.rank[i] <= self.rank[self.ancestor(i, k)],
        decreases k,
    {
        if k > 0 {
            self.lemma_ancestor(i, (k - 1) as nat);
            self.lemma_root(self.ancestor(i, (k - 1) as nat));
        }
    }

    /// Ranks never fall along a path.
    pub proof fn lemma_ancestor_rank_le(self, i: int, m: nat, k: nat)
        requires
            self.shape_ok(),
            self.has(i),
            m <= k,
        ensures
            self.rank[self.ancestor(i, m)] <= self.rank[self.ancestor(i, k)],
        decreases k,
    {
        if m < k {
            self.lemma_ancestor_rank_le(i, m, (k - 1) as nat);
            self.lemma_ancestor(i, (k - 1) as nat);
            self.lemma_root(self.ancestor(i, (k - 1) as nat));
        }
    }

    /// Below the root, ranks strictly increase along a path.
    pub proof fn lemma_ancestor_rank(self, i: int, m: nat, k: nat)
        requires
            self.shape_ok(),
            self.has(i),
            m < k,
            !self.is_root(self.ancestor(i, m)),
        ensures
            self.rank[self.ancestor(i, m)] < self.rank[self.ancestor(i, k)],
        decreases k,
    {
        self.lemma_ancestor(i, m);
        self.lemma_ancestor(i, (k - 1) as nat);
        if m < k - 1 {
            self.lemma_ancestor_rank(i, m, (k - 1) as nat);
        }
    }

    /// Once a path has reached the root it stays there.
    pub proof fn lemma_ancestor_at_root(self, i: int, m: nat, k: nat)
        requires
            self.shape_ok(),
            self.has(i),
            m <= k,
            self.is_root(self.ancestor(i, m)),
        ensures
            self.ancestor(i, k) == self.ancestor(i, m),
        decreases k,
    {
        if m < k {
            self.lemma_ancestor_at_root(i, m, (k - 1) as nat);
        }
    }

    /// A path can be walked from its second node on.
    pub proof fn lemma_ancestor_shift(self, i: int, k: nat)
        ensures
            self.ancestor(i, k + 1) == self.ancestor(self.parent[i] as int, k),
        decreases k,
    {
        reveal_with_fuel(Forest::ancestor, 2);
        if k > 0 {
            self.lemma_ancestor_shift(i, (k - 1) as nat);
        }
    }

    /// Trees are low: every element reaches its root in no more steps than the
    /// rank of the root, and a root of rank `r` needs a forest of `2^r`
    /// elements.
    pub proof fn lemma_height(self, i: int)
        requires
            self.wf(),
            self.has(i),
        ensures
            self.ancestor(i, (self.rank[self.root(i)] - self.rank[i]) as nat) == self.root(i),
            self.ancestor(i, self.rank[self.root(i)] as nat) == self.root(i),
            pow2(self.rank[self.root(i)] as nat) <= self.len(),
        decreases 256 - self.rank[i],
    {
        let r = self.root(i);
        let p = self.parent[i] as int;
        self.lemma_root(i);
        self.lemma_class(r);
        let d = (self.rank[r] - self.rank[i]) as nat;
        if p != i {
            self.lemma_height(p);
            self.lemma_root(p);
            let e = (self.rank[r] - self.rank[p]) as nat;
            self.lemma_ancestor_shift(i, e);
            self.lemma_ancestor_at_root(i, e + 1, d);
        }
        self.lemma_ancestor_at_root(i, d, self.rank[r] as nat);
    }

    /// `other` differs from `self` only in that some nodes point to their
    /// grandparent instead of their parent.
    pub open spec fn shortcut_of(self, other: Forest) -> bool {
        &&& self.rank == other.rank
        &&& self.parent.len() == other.parent.len()
        &&& forall|j: int|
            #![trigger self.parent[j]]
            other.has(j) ==> self.parent[j] == other.parent[j] || self.parent[j]
                == other.parent[other.parent[j] as int]
    }

    /// Shortcuts keep the forest well shaped.
    pub proof fn lemma_shortcut_shape(self, other: Forest)
        requires
            other.shape_ok(),
            self.shortcut_of(other),
        ensures
            self.shape_ok(),
    {
        assert forall|j: int| self.has(j) implies self.has(#[trigger] self.parent[j] as int) && (
        self.parent[j] != j ==> self.rank[j] < self.rank[self.parent[j] as int]) by {
            let p = other.parent[j] as int;
            assert(other.has(p));
            let g = other.parent[p] as int;
            assert(other.has(g));
        }
    }

    /// Shortcuts keep every root.
    pub proof fn lemma_shortcut_root(self, other: Forest, j: int)
        requires
            other.shape_ok(),
            self.shortcut_of(other),
            other.has(j),
        ensures
            self.root(j) == other.root(j),
        decreases 256 - other.rank[j],
    {
        self.lemma_shortcut_shape(other);
        let p = other.parent[j] as int;
        assert(other.has(p));
        let g = other.parent[p] as int;
        assert(other.has(g));
        other.lemma_root(j);
        other.lemma_root(p);
        let q = self.parent[j] as int;
        if q != j {
            self.lemma_shortcut_root(other, q);
        }
    }

    /// Shortcuts keep the partition and the invariant.
    pub proof fn lemma_shortcut(self, other: Forest)
        requires
            other.wf(),
            self.shortcut_of(other),
        ensures
            self.wf(),
            self.partition() == other.partition(),
            forall|j: int| other.has(j) ==> self.root(j) == other.root(j),
    {
        self.lemma_shortcut_shape(other);
        assert forall|j: int| other.has(j) implies self.root(j) == other.root(j) by {
            self.lemma_shortcut_root(other, j);
        }
        assert forall|i: int| other.has(i) implies self.class(i) == other.class(i) by {
            assert(self.class(i) =~= other.class(i));
        }
        assert(self.partition() =~= other.partition());
        assert forall|r: int| self.has(r) && self.is_root(r) implies pow2(
            self.rank[r] as nat,
        ) <= self.class(r).len() by {
            other.lemma_root(r);
            assert(other.is_root(r)) by {
                let p = other.parent[r] as int;
                assert(other.has(p));
            }
            assert(other.parent[r] == r);
        }
    }

    /// Resolving a root is a shortcut of the forest.
    pub proof fn lemma_split_path(self, i: int)
        requires
            self.wf(),
            self.has(i),
        ensures
            self.split_path(i).shortcut_of(self),
            self.split_path(i).wf(),
            self.split_path(i).partition() == self.partition(),
            forall|j: int| self.has(j) ==> self.split_path(i).root(j) == self.root(j),
    {
        self.split_path(i).lemma_shortcut(self);
    }

    /// `j` is one of the first `k` nodes on the path from `i` to its root.
    pub open spec fn on_path_before(self, i: int, j: int, k: nat) -> bool {
        exists|m: nat| m < k && self.ancestor(i, m) == j
    }

    /// The forest in which the first `k` nodes on the path from `i` point to
    /// their former grandparents.
    pub open spec fn split_prefix(self, i: int, k: nat) -> Forest {
        Forest {
            parent: Seq::new(
                self.parent.len(),
                |j: int|
                    if self.on_path_before(i, j, k) {
                        self.parent[self.parent[j] as int]
                    } else {
                        self.parent[j]
                    },
            ),
            rank: self.rank,
        }
    }

    /// One step of resolving a root: the node `k` steps up the path, which is
    /// not a root, is pointed to its grandparent; it and its parent have not
    /// been touched before.
    pub proof fn lemma_split_step(self, i: int, k: nat)
        requires
            self.shape_ok(),
            self.has(i),
            !self.is_root(self.ancestor(i, k)),
        ensures
            self.split_prefix(i, k).parent[self.ancestor(i, k)] == self.parent[self.ancestor(i, k)],
            self.split_prefix(i, k).parent[self.ancestor(i, k + 1)] == self.parent[self.ancestor(
                i,
                k + 1,
            )],
            self.split_prefix(i, k + 1) == (Forest {
                parent: self.split_prefix(i, k).parent.update(
                    self.ancestor(i, k),
                    self.parent[self.ancestor(i, k + 1)],
                ),
                rank: self.rank,
            }),
    {
        let c = self.ancestor(i, k);
        let p = self.ancestor(i, k + 1);
        self.lemma_ancestor(i, k);
        self.lemma_ancestor(i, k + 1);
        assert(p == self.parent[c]);
        assert forall|m: nat| m < k implies self.ancestor(i, m) != c && self.ancestor(i, m)
            != p by {
            self.lemma_ancestor_rank_le(i, m, k);
            self.lemma_ancestor(i, m);
            if !self.is_root(self.ancestor(i, m)) {
                self.lemma_ancestor_rank(i, m, k);
            } else {
                self.lemma_ancestor_at_root(i, m, k);
            }
        }
        assert(!self.on_path_before(i, c, k));
        assert(!self.on_path_before(i, p, k));
        let g = Forest {
            parent: self.split_prefix(i, k).parent.update(c, self.parent[p]),
            rank: self.rank,
        };
        assert forall|j: int| self.has(j) implies self.split_prefix(i, k + 1).parent[j]
            == g.parent[j] by {
            if j == c {
                assert(self.on_path_before(i, j, k + 1));
            } else if self.on_path_before(i, j, k + 1) {
                let m = choose|m: nat| m < k + 1 && self.ancestor(i, m) == j;
                assert(m < k);
                assert(self.on_path_before(i, j, k));
            } else if self.on_path_before(i, j, k) {
                let m = choose|m: nat| m < k && self.ancestor(i, m) == j;
                assert(m < k + 1);
                assert(self.on_path_before(i, j, k + 1));
            }
        }
        assert(self.split_prefix(i, k + 1).parent =~= g.parent);
    }

    /// Resolving a root is finished as soon as the next node on the path is the
    /// root.
    pub proof fn lemma_split_done(self, i: int, k: nat)
        requires
            self.shape_ok(),
            self.has(i),
            self.is_root(self.ancestor(i, k + 1)),
        ensures
            self.split_prefix(i, k) == self.split_path(i),
            self.ancestor(i, k + 1) == self.root(i),
    {
        self.lemma_ancestor(i, k + 1);
        self.lemma_root(self.ancestor(i, k + 1));
        assert forall|j: int| self.has(j) implies self.split_prefix(i, k).parent[j]
            == self.split_path(i).parent[j] by {
            if self.on_path_before(i, j, k) {
                assert(self.on_path(i, j));
            } else if self.on_path(i, j) {
                let m = choose|m: nat| self.ancestor(i, m) == j;
                if m >= k + 1 {
                    self.lemma_ancestor_at_root(i, k + 1, m);
                } else {
                    assert(m == k);
                    assert(self.ancestor(i, k + 1) == self.parent[self.ancestor(i, k)]);
                }
            }
        }
        assert(self.split_prefix(i, k).parent =~= self.split_path(i).parent);
    }

    /// Two distinct roots of equal rank leave room for the rank to grow.
    pub proof fn lemma_rank_room(self, a: int, b: int)
        requires
            self.wf(),
            self.len() <= usize::MAX,
            self.has(a),
            self.has(b),
            self.is_root(a),
            self.is_root(b),
            a != b,
            self.rank[a] == self.rank[b],
        ensures
            self.rank[a] < 64,
    {
        let r = self.rank[a] as nat;
        self.lemma_class(a);
        self.lemma_class(b);
        self.lemma_root(a);
        self.lemma_root(b);
        let u = self.class(a).union(self.class(b));
        assert(self.class(a).disjoint(self.class(b)));
        lemma_set_disjoint_lens(self.class(a), self.class(b));
        lemma_int_range(0, self.len() as int);
        lemma_len_subset(u, set_int_range(0, self.len() as int));
        assert(self.parent[a] == a && self.parent[b] == b);
        assert(2 * pow2(r) <= self.len());
        lemma_pow2_unfold(r + 1);
        lemma2_to64();
        if r + 1 > 64 {
            lemma_pow2_strictly_increases(64, r + 1);
        }
    }

    /// Linking two distinct roots keeps the forest well shaped.
    pub proof fn lemma_link_shape(self, a: int, b: int)
        requires
            self.shape_ok(),
            self.has(a),
            self.has(b),
            self.is_root(a),
            self.is_root(b),
            a != b,
            self.rank[a] == self.rank[b] ==> self.rank[a] < 255,
        ensures
            self.link(a, b).shape_ok(),
    {
        let g = self.link(a, b);
        assert forall|j: int| g.has(j) implies g.has(#[trigger] g.parent[j] as int) && (g.parent[j]
            != j ==> g.rank[j] < g.rank[g.parent[j] as int]) by {
            let p = self.parent[j] as int;
            assert(self.has(p));
        }
    }

    /// Linking two distinct roots moves the trees of the one under the other
    /// and leaves every other root alone.
    pub proof fn lemma_link_root(self, a: int, b: int, j: int)
        requires
            self.shape_ok(),
            self.has(a),
            self.has(b),
            self.is_root(a),
            self.is_root(b),
            a != b,
            self.rank[a] == self.rank[b] ==> self.rank[a] < 255,
            self.has(j),
        ensures
            self.link(a, b).root(j) == if self.root(j) == self.link_child(a, b) {
                self.link_parent(a, b)
            } else {
                self.root(j)
            },
        decreases 256 - self.link(a, b).rank[j],
    {
        let g = self.link(a, b);
        self.lemma_link_shape(a, b);
        self.lemma_root(j);
        let p = self.parent[j] as int;
        assert(self.has(p));
        let q = g.parent[j] as int;
        if q != j {
            self.lemma_link_root(a, b, q);
            self.lemma_root(q);
        }
    }

    /// Linking two distinct roots merges their classes and keeps the invariant.
    pub proof fn lemma_link(self, a: int, b: int)
        requires
            self.wf(),
            self.len() <= usize::MAX,
            self.has(a),
            self.has(b),
            self.is_root(a),
            self.is_root(b),
            a != b,
        ensures
            self.rank[a] == self.rank[b] ==> self.rank[a] < 64,
            self.link(a, b).wf(),
            forall|j: int|
                self.has(j) ==> #[trigger] self.link(a, b).root(j) == if self.root(j)
                    == self.link_child(a, b) {
                    self.link_parent(a, b)
                } else {
                    self.root(j)
                },
            forall|i: int|
                self.has(i) ==> #[trigger] self.link(a, b).class(i) == if self.class(a).contains(i)
                    || self.class(b).contains(i) {
                    self.class(a).union(self.class(b))
                } else {
                    self.class(i)
                },
    {
        let g = self.link(a, b);
        let w = self.link_parent(a, b);
        let c = self.link_child(a, b);
        if self.rank[a] == self.rank[b] {
            self.lemma_rank_room(a, b);
        }
        self.lemma_link_shape(a, b);
        self.lemma_root(a);
        self.lemma_root(b);
        assert forall|j: int| self.has(j) implies #[trigger] g.root(j) == if self.root(j) == c {
            w
        } else {
            self.root(j)
        } by {
            self.lemma_link_root(a, b, j);
        }
        assert forall|i: int| self.has(i) implies #[trigger] g.class(i) == if self.class(
            a,
        ).contains(i) || self.class(b).contains(i) {
            self.class(a).union(self.class(b))
        } else {
            self.class(i)
        } by {
            self.lemma_root(i);
            if self.class(a).contains(i) || self.class(b).contains(i) {
                assert(g.class(i) =~= self.class(a).union(self.class(b)));
            } else {
                assert(g.class(i) =~= self.class(i));
            }
        }
        assert forall|r: int| g.has(r) && g.is_root(r) implies pow2(g.rank[r] as nat)
            <= g.class(r).len() by {
            assert(self.has(r));
            assert(r != c);
            assert(self.parent[r] == r);
            self.lemma_root(r);
            self.lemma_class(r);
            if r == w {
                self.lemma_class(a);
                self.lemma_class(b);
                assert(self.class(a).disjoint(self.class(b)));
                lemma_set_disjoint_lens(self.class(a), self.class(b));
                assert(g.class(r) == self.class(a).union(self.class(b)));
                assert(self.parent[a] == a && self.parent[b] == b);
                if self.rank[a] == self.rank[b] {
                    lemma_pow2_unfold((self.rank[a] + 1) as nat);
                }
            } else {
                assert(g.class(r) == self.class(r));
            }
        }
    }

    /// `join` keeps the invariant and merges the classes of `a` and `b`.
    pub proof fn lemma_join(self, a: int, b: int)
        requires
            self.wf(),
            self.len() <= usize::MAX,
            self.has(a),
            self.has(b),
        ensures
            self.join(a, b).wf(),
            self.join(a, b).len() == self.len(),
            self.join(a, b).partition() == merged(self.partition(), a, b),
            self.joined(a, b) ==> self.join(a, b).partition() == self.partition(),
            self.parent[a] == self.parent[b] ==> self.joined(a, b),
            forall|j: int|
                self.has(j) ==> #[trigger] self.join(a, b).root(j) == if !self.joined(a, b)
                    && self.root(j) == self.link_child(self.root(a), self.root(b)) {
                    self.link_parent(self.root(a), self.root(b))
                } else {
                    self.root(j)
                },
    {
        let g = self.join(a, b);
        let p = self.partition();
        self.lemma_partition();
        self.lemma_root(a);
        self.lemma_root(b);
        if self.parent[a] == self.parent[b] {
            self.lemma_same_parent(a, b);
        }
        let f1 = self.split_path(a);
        self.lemma_split_path(a);
        let f2 = f1.split_path(b);
        f1.lemma_split_path(b);
        if self.root(a) != self.root(b) {
            let ra = self.root(a);
            let rb = self.root(b);
            f2.lemma_root(ra);
            f2.lemma_root(rb);
            f2.lemma_link(ra, rb);
            assert forall|i: int| 0 <= i < p.len() implies g.partition()[i] == merged(p, a, b)[i]
            by {
                assert(f2.partition()[ra] == p[ra]);
                assert(f2.partition()[rb] == p[rb]);
                assert(f2.partition()[i] == p[i]);
                assert(p[ra] == p[a]);
                assert(p[rb] == p[b]);
            }
            assert(g.partition() =~= merged(p, a, b));
        } else {
            assert forall|i: int| 0 <= i < p.len() implies p[i] == merged(p, a, b)[i] by {
                if p[a].contains(i) || p[b].contains(i) {
                    assert(p[a] == p[b]);
                    assert(p[a].union(p[b]) =~= p[a]);
                }
            }
            assert(p =~= merged(p, a, b));
        }
    }
}

} // verus!
