//! The union-find engine: path-splitting root resolution, union by rank, and
//! enumeration of the classes.

use crate::forest::Forest;
use crate::partition::is_partition;
use crate::partition::lemma_list_in_group;
use crate::partition::lemma_list_new_group;
use crate::partition::lemma_list_nothing;
use crate::partition::lemma_merged_again;
use crate::partition::lemma_merged_keeps;
use crate::partition::lists_classes;
use crate::partition::lists_classes_below;
use crate::partition::merged;
use crate::partition::singletons;
use crate::std_specs::vec_capacity;
use std::collections::hash_map::Entry;
use std::collections::HashMap;
use vstd::prelude::*;
use vstd::std_specs::cmp::PartialEqSpecImpl;

verus! {

/// A vector of `n` indices, eight bytes each at most, can be allocated: it
/// takes no more than `isize::MAX` bytes.
pub open spec fn fits_in_memory(n: usize) -> bool {
    n * (usize::BITS / 8) <= isize::MAX
}

/// The groups of indices that a vector of vectors holds.
pub open spec fn groups_view(groups: Seq<Vec<usize>>) -> Seq<Seq<int>> {
    Seq::new(groups.len(), |g: int| Seq::new(groups[g]@.len(), |x: int| groups[g]@[x] as int))
}

/// A disjoint-set structure over the indices `0..len`.
///
/// It records which indices are joined and nothing else.  Resolving a root
/// shortens the path it walks, so even the queries [`root_of`], [`is_joined`]
/// and [`sets`] take `&mut self`.
///
/// The view `set@` is the partition of the indices: `set@[i]` is the class of
/// `i`.  The contracts say what an operation does to the partition, which is
/// what callers rely on, and what it does to the forest of parent pointers
/// behind it, [`forest`].  Which element represents a class is a matter of
/// the forest alone.
///
/// # Examples
///
/// ```
/// use disjoint::DisjointSet;
///
/// let mut set = DisjointSet::with_len(4); // {0}, {1}, {2}, {3}
/// assert!(set.join(0, 1)); // {0, 1}, {2}, {3}
/// assert!(set.join(3, 2)); // {0, 1}, {2, 3}
/// assert!(set.is_joined(1, 0));
/// assert!(!set.is_joined(1, 2));
/// assert_eq!(set.sets(), vec![vec![0, 1], vec![2, 3]]);
/// ```
///
/// [`root_of`]: DisjointSet::root_of
/// [`is_joined`]: DisjointSet::is_joined
/// [`sets`]: DisjointSet::sets
/// [`forest`]: DisjointSet::forest
#[derive(Debug)]
pub struct DisjointSet {
    parents: Vec<usize>,
    ranks: Vec<u8>,
}

impl View for DisjointSet {
    type V = Seq<Set<int>>;

    /// The partition of `0..len`: entry `i` is the set of indices joined with
    /// `i`.
    open spec fn view(&self) -> Seq<Set<int>> {
        self.forest().partition()
    }
}

impl DisjointSet {
    /// The parent pointers and ranks behind the partition.
    pub closed spec fn forest(&self) -> Forest {
        Forest { parent: self.parents@, rank: self.ranks@ }
    }

    /// The invariant: a well-formed forest whose indices fit in `usize`.
    pub open spec fn wf(&self) -> bool {
        &&& self.forest().wf()
        &&& self.forest().len() <= usize::MAX
    }

    /// The number of elements, as used in contracts.
    pub open spec fn spec_len(&self) -> usize {
        self.forest().len() as usize
    }

    /// Returns the number of elements, however they are joined.
    #[verifier::when_used_as_spec(spec_len)]
    #[inline]
    #[must_use]
    pub fn len(&self) -> (len: usize)
        ensures
            len == self.spec_len(),
            len == self@.len(),
    {
        self.parents.len()
    }

    /// Returns the number of elements the structure can hold without
    /// allocating again.
    #[inline]
    #[must_use]
    pub fn capacity(&self) -> (capacity: usize)
        ensures
            capacity >= self.len(),
    {
        proof {
            assert(self.parents@.len() == self.parents.len());
        }
        vec_capacity(&self.parents)
    }

    /// Returns `true` if there are no elements.
    #[inline]
    #[must_use]
    pub fn is_empty(&self) -> (empty: bool)
        ensures
            empty <==> self.len() == 0,
            empty <==> self@.len() == 0,
    {
        proof {
            assert(self.parents@.len() == self.parents.len());
        }
        self.parents.is_empty()
    }

    /// Constructs an empty structure.  It does not allocate until elements are
    /// added.
    #[inline]
    #[must_use]
    pub fn new() -> (set: Self)
        ensures
            set.wf(),
            set.len() == 0,
            set@ == Seq::<Set<int>>::empty(),
            set.forest() == Forest::empty(),
    {
        let set = Self { parents: Vec::new(), ranks: Vec::new() };
        proof {
            assert(set@ =~= Seq::<Set<int>>::empty());
        }
        set
    }

    /// Constructs a structure with `len` elements, `0` to `len - 1`, each in
    /// a class of its own.
    #[inline]
    #[must_use]
    pub fn with_len(len: usize) -> (set: Self)
        requires
            fits_in_memory(len),
        ensures
            set.wf(),
            set.len() == len,
            set@ == singletons(len as nat),
            set.forest() == Forest::fresh(len as nat),
    {
        let mut parents: Vec<usize> = Vec::with_capacity(len);
        let mut ranks: Vec<u8> = Vec::with_capacity(len);
        let mut id: usize = 0;
        while id < len
            invariant
                id <= len,
                parents@ == Forest::fresh(id as nat).parent,
                ranks@ == Forest::fresh(id as nat).rank,
            decreases len - id,
        {
            parents.push(id);
            ranks.push(0);
            id += 1;
            proof {
                assert(parents@ =~= Forest::fresh(id as nat).parent);
                assert(ranks@ =~= Forest::fresh(id as nat).rank);
            }
        }
        proof {
            Forest::lemma_fresh(len as nat);
        }
        Self { parents, ranks }
    }

    /// Constructs an empty structure with room for `capacity` elements: that
    /// many can be added before it allocates again.
    #[inline]
    #[must_use]
    pub fn with_capacity(capacity: usize) -> (set: Self)
        requires
            fits_in_memory(capacity),
        ensures
            set.wf(),
            set.len() == 0,
            set@ == Seq::<Set<int>>::empty(),
            set.forest() == Forest::empty(),
    {
        let set = Self {
            parents: Vec::with_capacity(capacity),
            ranks: Vec::with_capacity(capacity),
        };
        proof {
            assert(set@ =~= Seq::<Set<int>>::empty());
        }
        set
    }

    /// Adds a new element in a class of its own and returns its index, the
    /// former length.  No other element is affected.
    #[inline]
    pub fn add_singleton(&mut self) -> (id: usize)
        requires
            old(self).wf(),
            old(self).len() < usize::MAX,
        ensures
            final(self).wf(),
            id == old(self).len(),
            final(self).len() == old(self).len() + 1,
            final(self)@ == old(self)@.push(set![id as int]),
            final(self).forest() == old(self).forest().grown(),
            forall|j: int|
                0 <= j < old(self).len() ==> final(self).forest().root(j) == old(
                    self,
                ).forest().root(j),
    {
        proof {
            self.forest().lemma_grown();
        }
        let id = self.len();
        self.parents.push(id);
        self.ranks.push(0);
        id
    }

    /// Removes all elements.  The allocation is kept for the elements to come.
    #[inline]
    pub fn clear(&mut self)
        ensures
            final(self).wf(),
            final(self).len() == 0,
            final(self)@ == Seq::<Set<int>>::empty(),
            final(self).forest() == Forest::empty(),
    {
        self.parents.clear();
        self.ranks.clear();
        proof {
            assert(self@ =~= Seq::<Set<int>>::empty());
        }
    }

    /// Returns the parent pointer of `id`; `id` itself if it is the root of
    /// its tree.
    #[inline]
    #[must_use]
    pub fn get_parent(&self, id: usize) -> (parent: usize)
        requires
            id < self@.len(),
        ensures
            parent == self.forest().parent[id as int],
    {
        self.parents[id]
    }

    #[inline]
    fn set_parent(&mut self, id: usize, new: usize)
        requires
            id < old(self).forest().len(),
        ensures
            final(self).forest() == (Forest {
                parent: old(self).forest().parent.update(id as int, new),
                rank: old(self).forest().rank,
            }),
    {
        self.parents[id] = new;
    }

    #[inline]
    #[must_use]
    fn get_mut_rank(&mut self, id: usize) -> (rank: &mut u8)
        requires
            id < old(self).forest().rank.len(),
        ensures
            *rank == old(self).forest().rank[id as int],
            final(self).forest() == (Forest {
                parent: old(self).forest().parent,
                rank: old(self).forest().rank.update(id as int, *final(rank)),
            }),
    {
        &mut self.ranks[id]
    }

    /// Returns an element of the class of `child`; the same element for every
    /// member of the class, until the next `join`.
    ///
    /// Which element that is, is left open.  Every node on the path from
    /// `child` to the root is pointed to its grandparent on the way.
    #[inline]
    #[must_use]
    pub fn root_of(&mut self, child: usize) -> (root: usize)
        requires
            old(self).wf(),
            child < old(self).len(),
        ensures
            final(self).wf(),
            root == old(self).forest().root(child as int),
            root < old(self).len(),
            old(self).forest().is_root(root as int),
            old(self)@[child as int].contains(root as int),
            final(self).forest() == old(self).forest().split_path(child as int),
            final(self)@ == old(self)@,
            final(self).len() == old(self).len(),
            forall|j: int|
                0 <= j < old(self).len() ==> final(self).forest().root(j) == old(
                    self,
                ).forest().root(j),
    {
        let ghost f0 = self.forest();
        let ghost c0 = child as int;
        proof {
            f0.lemma_split_path(c0);
            f0.lemma_root(c0);
            f0.lemma_partition();
        }
        let mut child = child;
        let mut parent = self.get_parent(child);
        if child == parent {
            proof {
                reveal_with_fuel(Forest::ancestor, 2);
                f0.lemma_split_done(c0, 0);
                assert(f0.split_prefix(c0, 0).parent =~= f0.parent);
            }
            return child;
        }
        let ghost mut k: nat = 0;
        proof {
            assert(f0.split_prefix(c0, 0).parent =~= f0.parent);
        }
        loop
            invariant
                f0.wf(),
                f0.has(c0),
                self.forest() == f0.split_prefix(c0, k),
                child == f0.ancestor(c0, k),
                f0.has(child as int),
                parent == f0.parent[child as int],
                child != parent,
            ensures
                self.forest() == f0.split_path(c0),
                parent == f0.root(c0),
            decreases 256 - f0.rank[child as int],
        {
            proof {
                f0.lemma_ancestor(c0, k);
                f0.lemma_ancestor(c0, k + 1);
                f0.lemma_split_step(c0, k);
            }
            let grandparent = self.get_parent(parent);
            if parent == grandparent {
                proof {
                    f0.lemma_split_done(c0, k);
                }
                break ;
            }
            self.set_parent(child, grandparent);
            child = parent;
            parent = grandparent;
            proof {
                k = k + 1;
            }
        }
        parent
    }

    /// If `first_element` and `second_element` are in different classes, makes
    /// the two classes one and returns `true`.  Otherwise returns `false` and
    /// leaves the partition as it is.
    ///
    /// Of the two roots the one of smaller rank is put below the other; on a
    /// tie the root of `second_element` is put below that of `first_element`,
    /// whose rank grows by one.
    #[inline]
    pub fn join(&mut self, first_element: usize, second_element: usize) -> (changed: bool)
        requires
            old(self).wf(),
            first_element < old(self).len(),
            second_element < old(self).len(),
        ensures
            final(self).wf(),
            changed == !old(self)@[first_element as int].contains(second_element as int),
            final(self).len() == old(self).len(),
            final(self)@ == merged(old(self)@, first_element as int, second_element as int),
            !changed ==> final(self)@ == old(self)@,
            final(self)@[first_element as int].contains(second_element as int),
            forall|i: int, j: int|
                0 <= i < old(self).len() && old(self)@[i].contains(j)
                    ==> #[trigger] final(self)@[i].contains(j),
            final(self).forest() == old(self).forest().join(
                first_element as int,
                second_element as int,
            ),
    {
        proof {
            let p = self@;
            self.forest().lemma_join(first_element as int, second_element as int);
            self.forest().lemma_partition();
            lemma_merged_again(p, first_element as int, second_element as int);
            let q = merged(p, first_element as int, second_element as int);
            assert forall|i: int, j: int|
                0 <= i < p.len() && p[i].contains(j) implies #[trigger] q[i].contains(j) by {
                lemma_merged_keeps(p, first_element as int, second_element as int, i, j);
            }
        }
        // Elements with the same parent are joined already.
        if self.get_parent(first_element) == self.get_parent(second_element) {
            return false;
        }
        self.slow_path(first_element, second_element)
    }

    fn slow_path(&mut self, first_element: usize, second_element: usize) -> (changed: bool)
        requires
            old(self).wf(),
            first_element < old(self).len(),
            second_element < old(self).len(),
        ensures
            changed == !old(self).forest().joined(first_element as int, second_element as int),
            !changed ==> final(self).forest() == old(self).forest().split_path(
                first_element as int,
            ).split_path(second_element as int),
            changed ==> final(self).forest() == old(self).forest().split_path(
                first_element as int,
            ).split_path(second_element as int).link(
                old(self).forest().root(first_element as int),
                old(self).forest().root(second_element as int),
            ),
    {
        let root_first = self.root_of(first_element);
        let root_second = self.root_of(second_element);

        if root_first == root_second {
            return false;
        }
        let ghost f = self.forest();
        proof {
            f.lemma_root(root_first as int);
            f.lemma_root(root_second as int);
            f.lemma_link(root_first as int, root_second as int);
        }

        let rank_second = *self.get_mut_rank(root_second);
        let rank_first = self.get_mut_rank(root_first);

        if *rank_first < rank_second {
            self.set_parent(root_first, root_second);
        } else {
            if *rank_first == rank_second {
                *rank_first += 1;
            }
            self.set_parent(root_second, root_first);
        }
        proof {
            let linked = f.link(root_first as int, root_second as int);
            assert(self.forest().parent =~= linked.parent);
            assert(self.forest().rank =~= linked.rank);
        }

        true
    }

    /// Returns `true` if `first_element` and `second_element` are in the same
    /// class.  Both roots are resolved, that of `first_element` first.
    #[inline]
    #[must_use]
    pub fn is_joined(&mut self, first_element: usize, second_element: usize) -> (joined: bool)
        requires
            old(self).wf(),
            first_element < old(self).len(),
            second_element < old(self).len(),
        ensures
            final(self).wf(),
            joined == old(self)@[first_element as int].contains(second_element as int),
            joined == old(self).forest().joined(first_element as int, second_element as int),
            final(self).len() == old(self).len(),
            final(self)@ == old(self)@,
            final(self).forest() == old(self).forest().split_path(first_element as int).split_path(
                second_element as int,
            ),
            forall|j: int|
                0 <= j < old(self).len() ==> final(self).forest().root(j) == old(
                    self,
                ).forest().root(j),
    {
        proof {
            self.forest().lemma_partition();
        }
        self.root_of(first_element) == self.root_of(second_element)
    }

    /// Returns all classes.  Each entry is one class, its elements in
    /// ascending order; the classes are ordered by their smallest element.
    ///
    /// The root of every element is resolved on the way, in ascending order.
    #[must_use]
    pub fn sets(&mut self) -> (sets: Vec<Vec<usize>>)
        requires
            old(self).wf(),
        ensures
            final(self).wf(),
            lists_classes(groups_view(sets@), old(self)@),
            final(self).len() == old(self).len(),
            final(self)@ == old(self)@,
            final(self).forest() == old(self).forest().split_paths(old(self).len() as nat),
            forall|j: int|
                0 <= j < old(self).len() ==> final(self).forest().root(j) == old(
                    self,
                ).forest().root(j),
    {
        broadcast use vstd::std_specs::hash::group_hash_axioms;

        let ghost f0 = self.forest();
        let ghost p = self@;
        let mut result: Vec<Vec<usize>> = Vec::new();
        let mut root_to_result_id: HashMap<usize, usize> = HashMap::new();
        let len = self.len();
        proof {
            f0.lemma_partition();
            lemma_list_nothing(p);
            assert(groups_view(result@) =~= Seq::<Seq<int>>::empty());
        }

        for index in 0..len
            invariant
                f0.wf(),
                f0.len() == len,
                p == f0.partition(),
                is_partition(p),
                self.wf(),
                self.forest() == f0.split_paths(index as nat),
                self.forest().len() == len,
                self@ == p,
                forall|j: int| 0 <= j < len ==> self.forest().root(j) == f0.root(j),
                lists_classes_below(groups_view(result@), p, index as int),
                forall|g: int|
                    0 <= g < result@.len() ==> root_to_result_id@.contains_key(
                        f0.root((#[trigger] result@[g])@[0] as int) as usize,
                    ) && root_to_result_id@[f0.root(result@[g]@[0] as int) as usize] == g,
                forall|r: usize| #[trigger]
                    root_to_result_id@.contains_key(r) ==> root_to_result_id@[r] < result@.len()
                        && f0.root(result@[root_to_result_id@[r] as int]@[0] as int) == r,
        {
            let ghost groups = groups_view(result@);
            let ghost ids = root_to_result_id@;
            let root = self.root_of(index);
            proof {
                f0.lemma_root(index as int);
                assert forall|g: int| 0 <= g < groups.len() implies (p[index as int].contains(
                    (#[trigger] groups[g])[0],
                ) <==> f0.root(result@[g]@[0] as int) == root) by {
                    assert(groups[g].len() > 0);
                    assert(groups[g][0] == result@[g]@[0]);
                    assert(0 <= groups[g][0] < index);
                }
            }
            let result_id = match root_to_result_id.entry(root) {
                Entry::Occupied(entry) => *entry.get(),
                Entry::Vacant(entry) => {
                    let id = result.len();
                    result.push(Vec::with_capacity(1));
                    entry.insert(id);
                    id
                },
            };
            result[result_id].push(index);
            proof {
                if ids.contains_key(root) {
                    assert(root_to_result_id@ =~= ids);
                    assert(groups_view(result@) =~~= groups.update(
                        result_id as int,
                        groups[result_id as int].push(index as int),
                    ));
                    lemma_list_in_group(groups, p, index as int, result_id as int);
                } else {
                    assert(root_to_result_id@ =~= ids.insert(root, result_id));
                    assert(groups_view(result@) =~~= groups.push(seq![index as int]));
                    lemma_list_new_group(groups, p, index as int);
                }
                assert forall|g: int|
                    0 <= g < result@.len() implies root_to_result_id@.contains_key(
                    f0.root((#[trigger] result@[g])@[0] as int) as usize,
                ) && root_to_result_id@[f0.root(result@[g]@[0] as int) as usize] == g by {
                    if g < groups.len() {
                        assert(groups[g].len() > 0);
                    }
                }
            }
        }
        result
    }

    /// Resolves the root of `id` without changing anything.
    ///
    /// The walk goes on only while the parent pointer leads to an element of
    /// larger rank, so it ends on every input.
    #[inline]
    #[must_use]
    fn find_root(&self, id: usize) -> (root: usize)
        ensures
            root == self.forest().root(id as int),
    {
        let mut current = id;
        loop
            invariant
                self.forest().root(current as int) == self.forest().root(id as int),
            decreases 256 - self.forest().rank[current as int],
        {
            if current >= self.parents.len() || current >= self.ranks.len() {
                return current;
            }
            let parent = self.parents[current];
            if parent == current || parent >= self.parents.len() || parent >= self.ranks.len()
                || self.ranks[current] >= self.ranks[parent] {
                return current;
            }
            current = parent;
        }
    }
}

impl PartialEq for DisjointSet {
    /// Two structures are equal if they have the same length and join the
    /// same elements, whatever their parent pointers are.
    fn eq(&self, other: &Self) -> (equal: bool) {
        broadcast use vstd::std_specs::hash::group_hash_axioms;

        if self.len() != other.len() {
            return false;
        }
        let len = self.len();
        let ghost fs = self.forest();
        let ghost fo = other.forest();
        proof {
            assert(self.parents@.len() == self.parents.len());
            assert(other.parents@.len() == other.parents.len());
        }

        let mut self_root_to_other_root: HashMap<usize, usize> = HashMap::with_capacity(len);
        let mut other_root_to_self_root: HashMap<usize, usize> = HashMap::with_capacity(len);
        let ghost mut seen_self: Map<usize, int> = Map::empty();
        let ghost mut seen_other: Map<usize, int> = Map::empty();

        for i in 0..len
            invariant
                fs == self.forest(),
                fo == other.forest(),
                fs.len() == len,
                fo.len() == len,
                forall|j: int|
                    0 <= j < i ==> self_root_to_other_root@.contains_key(
                        #[trigger] fs.root(j) as usize,
                    ) && self_root_to_other_root@[fs.root(j) as usize] == fo.root(j),
                forall|j: int|
                    0 <= j < i ==> other_root_to_self_root@.contains_key(
                        #[trigger] fo.root(j) as usize,
                    ) && other_root_to_self_root@[fo.root(j) as usize] == fs.root(j),
                forall|r: usize| #[trigger]
                    self_root_to_other_root@.contains_key(r) ==> seen_self.contains_key(r) && 0
                        <= seen_self[r] < i && fs.root(seen_self[r]) == r && fo.root(seen_self[r])
                        == self_root_to_other_root@[r],
                forall|r: usize| #[trigger]
                    other_root_to_self_root@.contains_key(r) ==> seen_other.contains_key(r) && 0
                        <= seen_other[r] < i && fo.root(seen_other[r]) == r && fs.root(
                        seen_other[r],
                    ) == other_root_to_self_root@[r],
        {
            let self_root = self.find_root(i);
            let other_root = other.find_root(i);
            proof {
                fs.lemma_root_has(i as int);
                fo.lemma_root_has(i as int);
            }
            let ghost forth = self_root_to_other_root@;
            let ghost back = other_root_to_self_root@;

            match self_root_to_other_root.entry(self_root) {
                Entry::Occupied(entry) => {
                    if other_root != *entry.get() {
                        proof {
                            let j = seen_self[self_root];
                            assert(self@[i as int].contains(j));
                            assert(!other@[i as int].contains(j));
                        }
                        return false;
                    }
                },
                Entry::Vacant(entry) => {
                    entry.insert(other_root);
                },
            }
            match other_root_to_self_root.entry(other_root) {
                Entry::Occupied(entry) => {
                    if self_root != *entry.get() {
                        proof {
                            let j = seen_other[other_root];
                            assert(other@[i as int].contains(j));
                            assert(!self@[i as int].contains(j));
                        }
                        return false;
                    }
                },
                Entry::Vacant(entry) => {
                    entry.insert(self_root);
                },
            }
            proof {
                assert(self_root_to_other_root@ =~= forth.insert(self_root, other_root));
                assert(other_root_to_self_root@ =~= back.insert(other_root, self_root));
                if !forth.contains_key(self_root) {
                    seen_self = seen_self.insert(self_root, i as int);
                }
                if !back.contains_key(other_root) {
                    seen_other = seen_other.insert(other_root, i as int);
                }
            }
        }
        proof {
            assert forall|a: int| 0 <= a < len implies self@[a] == other@[a] by {
                assert forall|b: int| self@[a].contains(b) <==> other@[a].contains(b) by {
                    if 0 <= b < len {
                        assert(self_root_to_other_root@[fs.root(a) as usize] == fo.root(a));
                        assert(self_root_to_other_root@[fs.root(b) as usize] == fo.root(b));
                        assert(other_root_to_self_root@[fo.root(a) as usize] == fs.root(a));
                        assert(other_root_to_self_root@[fo.root(b) as usize] == fs.root(b));
                    }
                }
                assert(self@[a] =~= other@[a]);
            }
            assert(self@ =~= other@);
        }
        true
    }
}

impl PartialEqSpecImpl for DisjointSet {
    open spec fn obeys_eq_spec() -> bool {
        true
    }

    open spec fn eq_spec(&self, other: &Self) -> bool {
        self@ == other@
    }
}

impl Eq for DisjointSet {

}

impl Default for DisjointSet {
    /// The empty structure.
    fn default() -> (set: Self)
        ensures
            set.wf(),
            set.len() == 0,
            set@ == Seq::<Set<int>>::empty(),
            set.forest() == Forest::empty(),
    {
        Self::new()
    }
}

impl Clone for DisjointSet {
    /// A copy with the same parent pointers and ranks.
    fn clone(&self) -> (copy: Self)
        ensures
            copy.forest() == self.forest(),
            copy@ == self@,
            self.wf() ==> copy.wf(),
    {
        let copy = Self { parents: self.parents.clone(), ranks: self.ranks.clone() };
        proof {
            assert(copy.parents@ =~= self.parents@);
            assert(copy.ranks@ =~= self.ranks@);
        }
        copy
    }
}

} // verus!
