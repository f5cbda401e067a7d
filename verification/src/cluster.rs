//! A cluster: a center and the samples currently assigned to it.

use vstd::prelude::*;
use crate::center::Center;
use crate::number::NumberLike;

verus! {

/// What a cluster holds, as mathematical values.
pub struct ClusterView<T> {
    pub center: Center,
    pub members: Seq<T>,
}

/// A group of assigned samples with its representative center.
#[derive(Debug)]
pub struct Cluster<T: NumberLike> {
    center: Center,
    items: Vec<T>,
}

impl<T: NumberLike> View for Cluster<T> {
    type V = ClusterView<T>;

    closed spec fn view(&self) -> ClusterView<T> {
        ClusterView { center: self.center, members: self.items@ }
    }
}

impl<T: NumberLike> Cluster<T> {
    /// A cluster at `center` with no members.
    pub fn new(center: Center) -> (r: Self)
        ensures
            r@.center == center,
            r@.members == Seq::<T>::empty(),
    {
        Cluster { center, items: Vec::new() }
    }

    /// The center of the cluster.
    pub fn center(&self) -> (r: Center)
        ensures
            r == self@.center,
    {
        self.center
    }

    /// The members of the cluster, in the order in which they were assigned.
    pub fn members(&self) -> (r: &Vec<T>)
        ensures
            r@ == self@.members,
    {
        &self.items
    }

    /// Appends `item` to the members.
    pub fn add(&mut self, item: T)
        ensures
            final(self)@.center == old(self)@.center,
            final(self)@.members == old(self)@.members.push(item),
    {
        self.items.push(item);
    }

    /// Moves the cluster to `center`; the members stay.
    pub fn set_center(&mut self, center: Center)
        ensures
            final(self)@.center == center,
            final(self)@.members == old(self)@.members,
    {
        self.center = center;
    }

    /// Drops all members; the center stays.
    pub fn reset(&mut self)
        ensures
            final(self)@.center == old(self)@.center,
            final(self)@.members == Seq::<T>::empty(),
    {
        self.items.clear();
    }
}

} // verus!
