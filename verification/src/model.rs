//! The mathematical model of clustering: sums, means, the assignment of
//! samples to their nearest centers, and the centers after each epoch.

use vstd::prelude::*;
use vstd::multiset::Multiset;
use crate::center::{
    is_nearest, lemma_nearest_exists, lemma_nearest_unique, Center, MAX_DEN,
};
use crate::cluster::Cluster;
use crate::number::NumberLike;

verus! {

/// The sum of the values of `items`.
pub open spec fn total<T: NumberLike>(items: Seq<T>) -> int
    decreases items.len(),
{
    if items.len() == 0 {
        0
    } else {
        total(items.drop_last()) + items.last().value()
    }
}

/// The arithmetic mean of `items`: their sum over their count.
pub open spec fn mean_of<T: NumberLike>(items: Seq<T>) -> Center {
    Center { num: total(items) as i128, den: items.len() as u64 }
}

/// The samples of `data`, in input order, whose nearest center among
/// `centers` is the one at index `j`.
pub open spec fn members_of<T: NumberLike>(data: Seq<T>, centers: Seq<Center>, j: int) -> Seq<T>
    decreases data.len(),
{
    if data.len() == 0 {
        Seq::empty()
    } else {
        let rest = members_of(data.drop_last(), centers, j);
        if is_nearest(centers, data.last().value(), j) {
            rest.push(data.last())
        } else {
            rest
        }
    }
}

/// The centers after one epoch over `data` that starts from `centers`: the
/// mean of the samples assigned to each, or the old center where none was.
pub open spec fn step_centers<T: NumberLike>(data: Seq<T>, centers: Seq<Center>) -> Seq<Center> {
    Seq::new(
        centers.len(),
        |j: int|
            if members_of(data, centers, j).len() == 0 {
                centers[j]
            } else {
                mean_of(members_of(data, centers, j))
            },
    )
}

/// The centers after `epochs` epochs over `data` that start from `seeds`.
pub open spec fn centers_after<T: NumberLike>(data: Seq<T>, seeds: Seq<Center>, epochs: nat) -> Seq<
    Center,
>
    decreases epochs,
{
    if epochs == 0 {
        seeds
    } else {
        step_centers(data, centers_after(data, seeds, (epochs - 1) as nat))
    }
}

/// The centers of `clusters`, in cluster order.
pub open spec fn centers_of<T: NumberLike>(clusters: Seq<Cluster<T>>) -> Seq<Center> {
    Seq::new(clusters.len(), |j: int| clusters[j]@.center)
}

/// The member lists of `clusters`, in cluster order.
pub open spec fn groups_of<T: NumberLike>(clusters: Seq<Cluster<T>>) -> Seq<Seq<T>> {
    Seq::new(clusters.len(), |j: int| clusters[j]@.members)
}

/// The member lists that assigning `data` to `centers` gives, in center
/// order.
pub open spec fn assignment<T: NumberLike>(data: Seq<T>, centers: Seq<Center>) -> Seq<Seq<T>> {
    Seq::new(centers.len(), |j: int| members_of(data, centers, j))
}

/// All elements of all `groups` together, as a multiset.
pub open spec fn pool<T>(groups: Seq<Seq<T>>) -> Multiset<T>
    decreases groups.len(),
{
    if groups.len() == 0 {
        Multiset::empty()
    } else {
        pool(groups.drop_last()).add(groups.last().to_multiset())
    }
}

/// All members of all `clusters` together, as a multiset.
pub open spec fn pooled<T: NumberLike>(clusters: Seq<Cluster<T>>) -> Multiset<T> {
    pool(groups_of(clusters))
}

/// What clustering `data` from `seeds` for `epochs` epochs gives: one cluster
/// for each seed, in seed order. Without an epoch each cluster sits on its
/// seed and has no members. Otherwise its center is the one after the last
/// epoch, and its members are the samples that were nearest to the center
/// it had before that epoch.
pub open spec fn is_solution<T: NumberLike>(
    data: Seq<T>,
    seeds: Seq<Center>,
    epochs: int,
    clusters: Seq<Cluster<T>>,
) -> bool {
    &&& clusters.len() == seeds.len()
    &&& epochs <= 0 ==> forall|j: int|
        0 <= j < clusters.len() ==> (#[trigger] clusters[j])@.center == seeds[j]
            && clusters[j]@.members == Seq::<T>::empty()
    &&& epochs > 0 ==> forall|j: int|
        0 <= j < clusters.len() ==> (#[trigger] clusters[j])@.center == centers_after(
            data,
            seeds,
            epochs as nat,
        )[j] && clusters[j]@.members == members_of(
            data,
            centers_after(data, seeds, (epochs - 1) as nat),
            j,
        )
}

/// `lo` is the smallest value in `data`.
pub open spec fn is_min<T: NumberLike>(data: Seq<T>, lo: int) -> bool {
    &&& forall|i: int| 0 <= i < data.len() ==> lo <= (#[trigger] data[i]).value()
    &&& exists|i: int| 0 <= i < data.len() && (#[trigger] data[i]).value() == lo
}

/// `hi` is the largest value in `data`.
pub open spec fn is_max<T: NumberLike>(data: Seq<T>, hi: int) -> bool {
    &&& forall|i: int| 0 <= i < data.len() ==> (#[trigger] data[i]).value() <= hi
    &&& exists|i: int| 0 <= i < data.len() && (#[trigger] data[i]).value() == hi
}

/// The center `c` lies at or above some sample of `data`, and at or below
/// some sample: it is between the smallest and the largest.
pub open spec fn in_spread<T: NumberLike>(data: Seq<T>, c: Center) -> bool {
    &&& exists|i: int| 0 <= i < data.len() && (#[trigger] data[i]).value() * c.den <= c.num
    &&& exists|i: int| 0 <= i < data.len() && c.num <= (#[trigger] data[i]).value() * c.den
}

/// `seeds` are `count` well-formed centers between the smallest and the
/// largest sample of `data`.
pub open spec fn is_seeding<T: NumberLike>(data: Seq<T>, seeds: Seq<Center>, count: int) -> bool {
    &&& seeds.len() == count
    &&& forall|j: int| 0 <= j < seeds.len() ==> (#[trigger] seeds[j]).wf() && in_spread(data, seeds[j])
}

/// Every center is well formed.
pub open spec fn all_wf(centers: Seq<Center>) -> bool {
    forall|j: int| 0 <= j < centers.len() ==> (#[trigger] centers[j]).wf()
}

/// Empty groups pool to the empty multiset.
pub proof fn lemma_pool_empty<T>(groups: Seq<Seq<T>>)
    requires
        forall|j: int| 0 <= j < groups.len() ==> (#[trigger] groups[j]).len() == 0,
    ensures
        pool(groups) == Multiset::<T>::empty(),
    decreases groups.len(),
{
    broadcast use vstd::seq_lib::to_multiset_len;
    if groups.len() > 0 {
        assert forall|j: int| 0 <= j < groups.drop_last().len() implies (#[trigger] groups.drop_last()[j]).len()
            == 0 by {
            assert(groups.drop_last()[j] == groups[j]);
        }
        lemma_pool_empty(groups.drop_last());
        assert(groups.last() == groups[groups.len() - 1]);
        assert(groups.last().to_multiset().len() == 0);
        assert(groups.last().to_multiset() =~= Multiset::<T>::empty());
        assert(pool(groups) =~= Multiset::<T>::empty());
    }
}

/// Appending one element to one group inserts it into the pool.
pub proof fn lemma_pool_push<T>(before: Seq<Seq<T>>, after: Seq<Seq<T>>, b: int, x: T)
    requires
        0 <= b < before.len(),
        after.len() == before.len(),
        forall|j: int| 0 <= j < before.len() && j != b ==> #[trigger] after[j] == before[j],
        after[b] == before[b].push(x),
    ensures
        pool(after) == pool(before).insert(x),
    decreases before.len(),
{
    broadcast use vstd::seq_lib::to_multiset_build;
    let n = before.len() - 1;
    let before_rest = before.drop_last();
    let after_rest = after.drop_last();
    assert(after.last() == after[n]);
    assert(before.last() == before[n]);
    if b == n {
        assert(after_rest =~= before_rest) by {
            assert forall|j: int| 0 <= j < n implies after_rest[j] == before_rest[j] by {
                assert(after_rest[j] == after[j]);
            }
        }
        assert(pool(after) =~= pool(before).insert(x));
    } else {
        assert forall|j: int| 0 <= j < before_rest.len() && j != b implies #[trigger] after_rest[j]
            == before_rest[j] by {
            assert(after_rest[j] == after[j]);
        }
        lemma_pool_push(before_rest, after_rest, b, x);
        assert(pool(after) =~= pool(before).insert(x));
    }
}

/// Clusters without members pool to the empty multiset.
pub proof fn lemma_pooled_empty<T: NumberLike>(clusters: Seq<Cluster<T>>)
    requires
        forall|j: int| 0 <= j < clusters.len() ==> (#[trigger] clusters[j])@.members.len() == 0,
    ensures
        pooled(clusters) == Multiset::<T>::empty(),
{
    lemma_pool_empty(groups_of(clusters));
}

/// Appending one sample to one cluster inserts it into the pooled members.
pub proof fn lemma_pooled_push<T: NumberLike>(
    before: Seq<Cluster<T>>,
    after: Seq<Cluster<T>>,
    b: int,
    x: T,
)
    requires
        0 <= b < before.len(),
        after.len() == before.len(),
        forall|j: int|
            0 <= j < before.len() && j != b ==> (#[trigger] after[j])@.members == before[j]@.members,
        after[b]@.members == before[b]@.members.push(x),
    ensures
        pooled(after) == pooled(before).insert(x),
{
    lemma_pool_push(groups_of(before), groups_of(after), b, x);
}

/// Clusters with the same members pool to the same multiset.
pub proof fn lemma_pooled_same<T: NumberLike>(a: Seq<Cluster<T>>, b: Seq<Cluster<T>>)
    requires
        a.len() == b.len(),
        forall|j: int| 0 <= j < a.len() ==> (#[trigger] a[j])@.members == b[j]@.members,
    ensures
        pooled(a) == pooled(b),
{
    assert(groups_of(a) =~= groups_of(b));
}

/// Assigning samples to their nearest centers partitions them: every
/// sample of `data` lands in the member list of exactly one center, so the
/// member lists together hold exactly the samples of `data`.
pub proof fn lemma_assignment_partitions<T: NumberLike>(data: Seq<T>, centers: Seq<Center>)
    requires
        centers.len() > 0,
        forall|j: int| 0 <= j < centers.len() ==> (#[trigger] centers[j]).den > 0,
    ensures
        pool(assignment(data, centers)) == data.to_multiset(),
    decreases data.len(),
{
    broadcast use vstd::seq_lib::to_multiset_build;
    broadcast use vstd::seq_lib::to_multiset_len;
    if data.len() == 0 {
        lemma_pool_empty(assignment(data, centers));
        assert(data.to_multiset().len() == 0);
        assert(data.to_multiset() =~= Multiset::<T>::empty());
    } else {
        let rest = data.drop_last();
        let x = data.last();
        lemma_assignment_partitions(rest, centers);
        lemma_nearest_exists(centers, x.value());
        let b = choose|i: int| is_nearest(centers, x.value(), i);
        assert forall|j: int| 0 <= j < centers.len() && j != b implies #[trigger] assignment(
            data,
            centers,
        )[j] == assignment(rest, centers)[j] by {
            if is_nearest(centers, x.value(), j) {
                lemma_nearest_unique(centers, x.value(), j, b);
            }
        }
        lemma_pool_push(assignment(rest, centers), assignment(data, centers), b, x);
        assert(data =~= rest.push(x));
    }
}

/// What a solution after at least one epoch holds is a partition of the
/// dataset: the members of all clusters together are exactly the samples
/// of `data`, none twice and none missing.
pub proof fn lemma_solution_partitions<T: NumberLike>(
    data: Seq<T>,
    seeds: Seq<Center>,
    epochs: int,
    clusters: Seq<Cluster<T>>,
)
    requires
        epochs > 0,
        seeds.len() > 0,
        all_wf(seeds),
        data.len() <= MAX_DEN,
        is_solution(data, seeds, epochs, clusters),
    ensures
        pooled(clusters) == data.to_multiset(),
{
    let before = centers_after(data, seeds, (epochs - 1) as nat);
    lemma_centers_after_wf(data, seeds, (epochs - 1) as nat);
    lemma_assignment_partitions(data, before);
    assert(groups_of(clusters) =~= assignment(data, before));
}

/// Every epoch keeps the number of centers and their denominators positive.
pub proof fn lemma_centers_after_wf<T: NumberLike>(data: Seq<T>, seeds: Seq<Center>, epochs: nat)
    requires
        data.len() <= MAX_DEN,
        forall|j: int| 0 <= j < seeds.len() ==> (#[trigger] seeds[j]).den > 0,
    ensures
        centers_after(data, seeds, epochs).len() == seeds.len(),
        forall|j: int|
            0 <= j < seeds.len() ==> (#[trigger] centers_after(data, seeds, epochs)[j]).den > 0,
    decreases epochs,
{
    if epochs > 0 {
        lemma_centers_after_wf(data, seeds, (epochs - 1) as nat);
        let before = centers_after(data, seeds, (epochs - 1) as nat);
        assert forall|j: int| 0 <= j < seeds.len() implies (#[trigger] centers_after(
            data,
            seeds,
            epochs,
        )[j]).den > 0 by {
            assert(before[j].den > 0);
            lemma_members_len(data, before, j);
            assert(step_centers(data, before)[j].den > 0);
        }
    }
}

/// No cluster is assigned more samples than there are.
pub proof fn lemma_members_len<T: NumberLike>(data: Seq<T>, centers: Seq<Center>, j: int)
    ensures
        members_of(data, centers, j).len() <= data.len(),
    decreases data.len(),
{
    if data.len() > 0 {
        lemma_members_len(data.drop_last(), centers, j);
    }
}

/// A cluster that gets no member in an epoch keeps the center it had when
/// the epoch began.
pub proof fn lemma_no_members_keeps_center<T: NumberLike>(data: Seq<T>, centers: Seq<Center>, j: int)
    requires
        0 <= j < centers.len(),
        members_of(data, centers, j).len() == 0,
    ensures
        step_centers(data, centers)[j] == centers[j],
{
}

/// Without an epoch the centers are the seeds.
pub proof fn lemma_zero_epochs<T: NumberLike>(data: Seq<T>, seeds: Seq<Center>)
    ensures
        centers_after(data, seeds, 0) == seeds,
{
}

/// An epoch neither adds nor removes a center.
pub proof fn lemma_centers_after_len<T: NumberLike>(data: Seq<T>, seeds: Seq<Center>, epochs: nat)
    ensures
        centers_after(data, seeds, epochs).len() == seeds.len(),
    decreases epochs,
{
    if epochs > 0 {
        lemma_centers_after_len(data, seeds, (epochs - 1) as nat);
    }
}

/// Two datasets, possibly of different sample types, hold the same values
/// in the same order.
pub open spec fn same_values<T: NumberLike, U: NumberLike>(a: Seq<T>, b: Seq<U>) -> bool {
    &&& a.len() == b.len()
    &&& forall|i: int| 0 <= i < a.len() ==> (#[trigger] a[i]).value() == b[i].value()
}

/// Datasets with the same values have the same sum.
pub proof fn lemma_total_agrees<T: NumberLike, U: NumberLike>(a: Seq<T>, b: Seq<U>)
    requires
        same_values(a, b),
    ensures
        total(a) == total(b),
    decreases a.len(),
{
    if a.len() > 0 {
        assert(a.drop_last().len() == b.drop_last().len());
        assert forall|i: int| 0 <= i < a.drop_last().len() implies (#[trigger] a.drop_last()[i]).value()
            == b.drop_last()[i].value() by {
            assert(a.drop_last()[i] == a[i]);
            assert(b.drop_last()[i] == b[i]);
        }
        lemma_total_agrees(a.drop_last(), b.drop_last());
        assert(a.last() == a[a.len() - 1]);
        assert(b.last() == b[b.len() - 1]);
    }
}

/// Datasets with the same values give every cluster the same values as
/// members, in the same order.
pub proof fn lemma_members_agree<T: NumberLike, U: NumberLike>(
    a: Seq<T>,
    b: Seq<U>,
    centers: Seq<Center>,
    j: int,
)
    requires
        same_values(a, b),
    ensures
        same_values(members_of(a, centers, j), members_of(b, centers, j)),
    decreases a.len(),
{
    if a.len() > 0 {
        assert(a.drop_last().len() == b.drop_last().len());
        assert forall|i: int| 0 <= i < a.drop_last().len() implies (#[trigger] a.drop_last()[i]).value()
            == b.drop_last()[i].value() by {
            assert(a.drop_last()[i] == a[i]);
            assert(b.drop_last()[i] == b[i]);
        }
        lemma_members_agree(a.drop_last(), b.drop_last(), centers, j);
        assert(a.last() == a[a.len() - 1]);
        assert(b.last() == b[b.len() - 1]);
    }
}

/// Clustering depends on the values of the samples alone, not on their
/// type: datasets with the same values have the same centers after every
/// number of epochs from the same seeds.
pub proof fn lemma_sample_type_irrelevant<T: NumberLike, U: NumberLike>(
    a: Seq<T>,
    b: Seq<U>,
    seeds: Seq<Center>,
    epochs: nat,
)
    requires
        same_values(a, b),
    ensures
        centers_after(a, seeds, epochs) == centers_after(b, seeds, epochs),
    decreases epochs,
{
    if epochs > 0 {
        lemma_sample_type_irrelevant(a, b, seeds, (epochs - 1) as nat);
        let before = centers_after(a, seeds, (epochs - 1) as nat);
        assert forall|j: int| 0 <= j < before.len() implies step_centers(a, before)[j] == step_centers(
            b,
            before,
        )[j] by {
            lemma_members_agree(a, b, before, j);
            lemma_total_agrees(members_of(a, before, j), members_of(b, before, j));
        }
        assert(step_centers(a, before) =~= step_centers(b, before));
    }
}

} // verus!
