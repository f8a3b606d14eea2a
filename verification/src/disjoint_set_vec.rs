//! A vector of values, one for each index of a [`DisjointSet`] that is kept in
//! step with it.

use vstd::prelude::*;
use crate::disjoint_set::fits_in_memory;
use crate::disjoint_set::DisjointSet;
use crate::forest::Forest;
use crate::disjoint_set::groups_view;
use crate::partition::lists_classes;
use crate::partition::merged;
use crate::partition::singletons;
use crate::std_specs::slice_iter_mut;
use vstd::std_specs::cmp::PartialEqSpec;
use vstd::std_specs::convert::FromSpec;
use vstd::std_specs::convert::FromSpecImpl;
use vstd::std_specs::iter::IteratorSpec;

verus! {

/// A `Vec<T>` of values together with a [`DisjointSet`] that records which of
/// them are joined.
///
/// Values are reached as in a slice (`container[index]`, `iter`, `get`, ...);
/// `join`, `is_joined` and `root_of` work on their indices.  The two parts
/// always have the same length.
///
/// The view `container@` is the pair of the values and the partition of their
/// indices.
///
/// # Examples
///
/// ```
/// use disjoint::DisjointSetVec;
///
/// let mut container = DisjointSetVec::from(vec!['a', 'b']); // {'a'}, {'b'}
/// container.join(0, 1); // {'a', 'b'}
/// assert_eq!(container.push('c'), 2); // {'a', 'b'}, {'c'}
/// container[1] = 'y'; // {'a', 'y'}, {'c'}
/// assert_eq!(container[1], 'y');
/// assert!(container.is_joined(0, 1));
/// assert!(!container.is_joined(0, 2));
/// ```
#[derive(Debug)]
pub struct DisjointSetVec<T> {
    data: Vec<T>,
    indices: DisjointSet,
}

impl<T> View for DisjointSetVec<T> {
    type V = (Seq<T>, Seq<Set<int>>);

    /// The values, and the partition of their indices.
    open spec fn view(&self) -> (Seq<T>, Seq<Set<int>>) {
        (self.spec_values()@, self.spec_indices()@)
    }
}

impl<T> DisjointSetVec<T> {
    /// The values, as used in contracts.
    pub closed spec fn spec_values(&self) -> &Vec<T> {
        &self.data
    }

    /// The structure of the indices, as used in contracts.
    pub closed spec fn spec_indices(&self) -> &DisjointSet {
        &self.indices
    }

    /// The invariant: one index for each value.
    pub open spec fn wf(&self) -> bool {
        &&& self.spec_indices().wf()
        &&& self.spec_values()@.len() == self.spec_indices()@.len()
    }

    /// Returns all values.
    #[verifier::when_used_as_spec(spec_values)]
    #[inline]
    #[must_use]
    pub fn values(&self) -> (values: &Vec<T>)
        ensures
            values == self.spec_values(),
    {
        &self.data
    }

    /// Returns the structure that records how the indices are joined.
    #[verifier::when_used_as_spec(spec_indices)]
    #[inline]
    #[must_use]
    pub fn indices(&self) -> (indices: &DisjointSet)
        ensures
            indices == self.spec_indices(),
    {
        &self.indices
    }

    /// Constructs an empty container with room for `capacity` values.
    #[inline]
    #[must_use]
    pub fn with_capacity(capacity: usize) -> (container: Self)
        requires
            fits_in_memory(capacity),
            capacity * vstd::layout::size_of::<T>() <= isize::MAX,
        ensures
            container.wf(),
            container@ == (Seq::<T>::empty(), Seq::<Set<int>>::empty()),
            container.indices().forest() == Forest::empty(),
    {
        Self { data: Vec::with_capacity(capacity), indices: DisjointSet::with_capacity(capacity) }
    }

    /// Constructs the container of the given values, none joined to another.
    #[inline]
    #[must_use]
    pub fn from_vec(values: Vec<T>) -> (container: Self)
        ensures
            container.wf(),
            container@ == (values@, singletons(values@.len())),
            *container.values() == values,
            container.indices().forest() == Forest::fresh(values@.len()),
    {
        let len = values.len();
        let mut indices = DisjointSet::new();
        proof {
            Forest::lemma_fresh_grown(0);
        }
        for id in 0..len
            invariant
                indices.wf(),
                indices.len() == id,
                indices.forest() == Forest::fresh(id as nat),
        {
            proof {
                Forest::lemma_fresh_grown(id as nat);
            }
            indices.add_singleton();
        }
        proof {
            Forest::lemma_fresh(len as nat);
        }
        Self { data: values, indices }
    }

    /// Constructs an empty container.  It does not allocate.
    #[inline]
    #[must_use]
    pub fn new() -> (container: Self)
        ensures
            container.wf(),
            container@ == (Seq::<T>::empty(), Seq::<Set<int>>::empty()),
            container.indices().forest() == Forest::empty(),
    {
        Self { data: Vec::new(), indices: DisjointSet::new() }
    }

    /// Removes all values.  The allocation is kept.
    #[inline]
    pub fn clear(&mut self)
        ensures
            final(self).wf(),
            final(self)@ == (Seq::<T>::empty(), Seq::<Set<int>>::empty()),
            final(self).indices().forest() == Forest::empty(),
    {
        self.data.clear();
        self.indices.clear();
    }

    /// Appends a value, joined to no other, and returns its index.
    #[inline]
    pub fn push(&mut self, value: T) -> (id: usize)
        requires
            old(self).wf(),
            old(self).values()@.len() < usize::MAX,
        ensures
            final(self).wf(),
            id == old(self).values()@.len(),
            final(self)@ == (old(self)@.0.push(value), old(self)@.1.push(set![id as int])),
            final(self).indices().forest() == old(self).indices().forest().grown(),
    {
        self.data.push(value);
        self.indices.add_singleton()
    }

    /// Returns the index of a value in the class of the value at
    /// `child_index`; the same index for every member of the class.
    #[inline]
    #[must_use]
    pub fn root_of(&mut self, child_index: usize) -> (root: usize)
        requires
            old(self).wf(),
            child_index < old(self).values()@.len(),
        ensures
            final(self).wf(),
            root == old(self).indices().forest().root(child_index as int),
            root < old(self).values()@.len(),
            old(self)@.1[child_index as int].contains(root as int),
            final(self)@ == old(self)@,
            final(self).indices().forest() == old(self).indices().forest().split_path(
                child_index as int,
            ),
    {
        self.indices.root_of(child_index)
    }

    /// Returns `true` if the values at `first_index` and `second_index` are in
    /// the same class.
    #[inline]
    #[must_use]
    pub fn is_joined(&mut self, first_index: usize, second_index: usize) -> (joined: bool)
        requires
            old(self).wf(),
            first_index < old(self).values()@.len(),
            second_index < old(self).values()@.len(),
        ensures
            final(self).wf(),
            joined == old(self)@.1[first_index as int].contains(second_index as int),
            final(self)@ == old(self)@,
            final(self).indices().forest() == old(self).indices().forest().split_path(
                first_index as int,
            ).split_path(second_index as int),
    {
        self.indices.is_joined(first_index, second_index)
    }

    /// If the values at `first_index` and `second_index` are in different
    /// classes, makes the two classes one and returns `true`.  Otherwise
    /// returns `false`.
    #[inline]
    pub fn join(&mut self, first_index: usize, second_index: usize) -> (changed: bool)
        requires
            old(self).wf(),
            first_index < old(self).values()@.len(),
            second_index < old(self).values()@.len(),
        ensures
            final(self).wf(),
            changed == !old(self)@.1[first_index as int].contains(second_index as int),
            final(self)@ == (
                old(self)@.0,
                merged(old(self)@.1, first_index as int, second_index as int),
            ),
            final(self).indices().forest() == old(self).indices().forest().join(
                first_index as int,
                second_index as int,
            ),
    {
        self.indices.join(first_index, second_index)
    }

    /// Returns all classes of indices, as [`DisjointSet::sets`] does.
    #[must_use]
    pub fn sets(&mut self) -> (sets: Vec<Vec<usize>>)
        requires
            old(self).wf(),
        ensures
            final(self).wf(),
            lists_classes(groups_view(sets@), old(self)@.1),
            final(self)@ == old(self)@,
            final(self).indices().forest() == old(self).indices().forest().split_paths(
                old(self)@.1.len(),
            ),
    {
        self.indices.sets()
    }
}

impl<T> Default for DisjointSetVec<T> {
    /// The empty container.
    fn default() -> (container: Self)
        ensures
            container.wf(),
            container@ == (Seq::<T>::empty(), Seq::<Set<int>>::empty()),
    {
        Self::new()
    }
}

impl<T> core::ops::Deref for DisjointSetVec<T> {
    type Target = [T];

    /// The values as a slice.
    fn deref(&self) -> (values: &[T])
        ensures
            values@ == self@.0,
    {
        self.data.as_slice()
    }
}

impl<T> core::ops::DerefMut for DisjointSetVec<T> {
    /// The values as a slice whose elements can be changed.  This changes no
    /// class: the container is left with the indices it had and with the
    /// values that the slice holds in the end.
    fn deref_mut(&mut self) -> (values: &mut [T])
        ensures
            values@ == old(self)@.0,
            final(values)@ == final(self)@.0,
            final(self)@.1 == old(self)@.1,
            final(self).spec_indices() == old(self).spec_indices(),
    {
        self.data.as_mut_slice()
    }
}

impl<T> IntoIterator for DisjointSetVec<T> {
    type Item = T;

    type IntoIter = std::vec::IntoIter<T>;

    /// The values, in the order of their indices.
    fn into_iter(self) -> (iter: std::vec::IntoIter<T>)
        ensures
            IteratorSpec::remaining(&iter) == self@.0,
            IteratorSpec::decrease(&iter) is Some,
            IteratorSpec::initial_value_relation(&iter, &iter),
    {
        self.data.into_iter()
    }
}

impl<'a, T> IntoIterator for &'a DisjointSetVec<T> {
    type Item = &'a T;

    type IntoIter = core::slice::Iter<'a, T>;

    /// References to the values, in the order of their indices.
    fn into_iter(self) -> (iter: core::slice::Iter<'a, T>)
        ensures
            IteratorSpec::remaining(&iter) == self@.0.as_ref(),
            IteratorSpec::decrease(&iter) is Some,
            IteratorSpec::initial_value_relation(&iter, &iter),
    {
        self.data.as_slice().iter()
    }
}

impl<'a, T> IntoIterator for &'a mut DisjointSetVec<T> {
    type Item = &'a mut T;

    type IntoIter = core::slice::IterMut<'a, T>;

    /// References to the values through which they can be changed, in the
    /// order of their indices: the reference at place `i` holds the value at
    /// index `i`, and what it holds in the end is that value in the end.  No
    /// class changes, and no value comes or goes.
    fn into_iter(self) -> (iter: core::slice::IterMut<'a, T>)
        ensures
            final(self).spec_indices() == old(self).spec_indices(),
            final(self)@.0.len() == old(self)@.0.len(),
            IteratorSpec::remaining(&iter).len() == old(self)@.0.len(),
            forall|i: int|
                0 <= i < old(self)@.0.len() ==> {
                    &&& *(#[trigger] IteratorSpec::remaining(&iter)[i]) == old(self)@.0[i]
                    &&& *final(IteratorSpec::remaining(&iter)[i]) == final(self)@.0[i]
                },
    {
        slice_iter_mut(self.data.as_mut_slice())
    }
}

impl<IntoVec, T> From<IntoVec> for DisjointSetVec<T> where Vec<T>: From<IntoVec> {
    /// The container of the values that `Vec::from` makes of `value`, none
    /// joined to another.
    fn from(value: IntoVec) -> (container: Self)
        ensures
            container.wf(),
            container@.1 == singletons(container@.0.len()),
            container.indices().forest() == Forest::fresh(container@.0.len()),
            <Vec<T> as FromSpec<IntoVec>>::obeys_from_spec() ==> *container.values() == <Vec<
                T,
            > as FromSpec<IntoVec>>::from_spec(value),
    {
        Self::from_vec(Vec::from(value))
    }
}

impl<IntoVec, T> FromSpecImpl<IntoVec> for DisjointSetVec<T> where Vec<T>: From<IntoVec> {
    open spec fn obeys_from_spec() -> bool {
        false
    }

    open spec fn from_spec(value: IntoVec) -> Self {
        arbitrary()
    }
}

impl<T: Clone> Clone for DisjointSetVec<T> {
    /// A copy with clones of the values and the same classes.
    fn clone(&self) -> (copy: Self)
        ensures
            copy.spec_indices().forest() == self.spec_indices().forest(),
            copy@.1 == self@.1,
            copy@.0.len() == self@.0.len(),
            forall|i: int|
                0 <= i < self@.0.len() ==> cloned::<T>(self@.0[i], #[trigger] copy@.0[i]),
            self.wf() ==> copy.wf(),
    {
        Self { data: self.data.clone(), indices: self.indices.clone() }
    }
}

impl<T: PartialEq> PartialEq for DisjointSetVec<T> {
    /// Two containers are equal if their values are equal and the same
    /// indices are joined.
    fn eq(&self, other: &Self) -> (equal: bool) {
        self.data == other.data && self.indices == other.indices
    }
}

impl<T: PartialEq> vstd::std_specs::cmp::PartialEqSpecImpl for DisjointSetVec<T> {
    open spec fn obeys_eq_spec() -> bool {
        <T as PartialEqSpec>::obeys_eq_spec()
    }

    open spec fn eq_spec(&self, other: &Self) -> bool {
        PartialEqSpec::eq_spec(self.spec_values(), other.spec_values()) && self.spec_indices()@
            == other.spec_indices()@
    }
}

impl<T: Eq> Eq for DisjointSetVec<T> {

}

} // verus!
