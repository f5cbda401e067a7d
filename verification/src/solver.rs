//! The clustering steps: nearest-center search, assignment, centroid update
//! and the epoch loop.

use vstd::prelude::*;
use vstd::multiset::Multiset;
use crate::center::{
    closer, is_closer, is_nearest, lemma_closer_chain, lemma_nearest_unique, Center, MAX_DEN,
    SAMPLE_BOUND,
};
use crate::cluster::Cluster;
use crate::model::{
    all_wf, centers_after, centers_of, in_spread, is_max, is_min, is_seeding, is_solution,
    lemma_members_len, lemma_pooled_empty, lemma_pooled_push, lemma_pooled_same, mean_of,
    members_of, pooled, step_centers, total,
};
use crate::number::NumberLike;
use crate::seeding::random_center;

verus! {

/// The index of the cluster whose center is nearest to `target`; where
/// several are equally near, the first of them.
pub fn closest<T: NumberLike>(clusters: &Vec<Cluster<T>>, target: &T) -> (best: usize)
    requires
        clusters.len() > 0,
        all_wf(centers_of(clusters@)),
    ensures
        is_nearest(centers_of(clusters@), target.value(), best as int),
{
    let x: i64 = target.to_i64();
    let ghost centers = centers_of(clusters@);
    let mut best: usize = 0;
    let mut best_center: Center = clusters[0].center();
    let mut j: usize = 1;
    while j < clusters.len()
        invariant
            1 <= j <= clusters.len(),
            centers == centers_of(clusters@),
            all_wf(centers),
            x as int == target.value(),
            best < j,
            best_center == centers[best as int],
            forall|m: int| 0 <= m < best ==> closer(centers[best as int], #[trigger] centers[m], x as int),
            forall|m: int| best < m < j ==> !closer(#[trigger] centers[m], centers[best as int], x as int),
        decreases clusters.len() - j,
    {
        let candidate: Center = clusters[j].center();
        assert(candidate == centers[j as int]);
        assert(centers[j as int].wf());
        assert(centers[best as int].wf());
        if is_closer(&candidate, &best_center, x) {
            proof {
                assert forall|m: int| 0 <= m < j implies closer(
                    centers[j as int],
                    #[trigger] centers[m],
                    x as int,
                ) by {
                    assert(centers[m].wf());
                    if m != best {
                        lemma_closer_chain(centers[j as int], centers[best as int], centers[m], x as int);
                    }
                }
            }
            best = j;
            best_center = candidate;
        }
        j += 1;
    }
    best
}

/// Assigns `el` to the cluster whose center is nearest to it.
pub fn qualify<T: NumberLike>(el: T, clusters: &mut Vec<Cluster<T>>)
    requires
        old(clusters).len() > 0,
        all_wf(centers_of(old(clusters)@)),
    ensures
        final(clusters).len() == old(clusters).len(),
        centers_of(final(clusters)@) == centers_of(old(clusters)@),
        forall|j: int|
            0 <= j < old(clusters).len() ==> (#[trigger] final(clusters)@[j])@.members == (if is_nearest(
                centers_of(old(clusters)@),
                el.value(),
                j,
            ) {
                old(clusters)@[j]@.members.push(el)
            } else {
                old(clusters)@[j]@.members
            }),
        pooled(final(clusters)@) == pooled(old(clusters)@).insert(el),
{
    let best: usize = closest(clusters, &el);
    let ghost before = clusters@;
    clusters[best].add(el);
    proof {
        assert(centers_of(clusters@) =~= centers_of(before));
        lemma_pooled_push(before, clusters@, best as int, el);
        assert forall|j: int| 0 <= j < before.len() && j != best implies !is_nearest(
            centers_of(before),
            el.value(),
            j,
        ) by {
            if is_nearest(centers_of(before), el.value(), j) {
                lemma_nearest_unique(centers_of(before), el.value(), j, best as int);
            }
        }
    }
}

/// The arithmetic mean of `numbers`, or `None` where there are none.
pub fn centroid<T: NumberLike>(numbers: &[T]) -> (r: Option<Center>)
    requires
        numbers.len() <= MAX_DEN,
    ensures
        numbers.len() == 0 ==> r.is_none(),
        numbers.len() > 0 ==> r == Some(mean_of(numbers@)) && r.unwrap().wf() && r.unwrap().num
            == total(numbers@) && r.unwrap().den == numbers.len(),
{
    let len: usize = numbers.len();
    if len == 0 {
        return None;
    }
    let mut sum: i128 = 0;
    let mut i: usize = 0;
    while i < len
        invariant
            len == numbers.len(),
            len <= MAX_DEN,
            0 <= i <= len,
            sum == total(numbers@.take(i as int)),
            -SAMPLE_BOUND * i <= sum <= SAMPLE_BOUND * i,
        decreases len - i,
    {
        let v: i64 = numbers[i].to_i64();
        proof {
            assert(numbers@.take(i + 1).drop_last() =~= numbers@.take(i as int));
            assert(numbers@.take(i + 1).last() == numbers@[i as int]);
            assert(SAMPLE_BOUND * (i + 1) == SAMPLE_BOUND * i + SAMPLE_BOUND) by (nonlinear_arith);
            assert(-SAMPLE_BOUND * (i + 1) == -SAMPLE_BOUND * i - SAMPLE_BOUND) by (nonlinear_arith);
            assert(SAMPLE_BOUND * i <= SAMPLE_BOUND * MAX_DEN) by (nonlinear_arith)
                requires
                    i <= MAX_DEN,
            ;
            assert(-SAMPLE_BOUND * MAX_DEN <= -SAMPLE_BOUND * i) by (nonlinear_arith)
                requires
                    i <= MAX_DEN,
            ;
        }
        sum = sum + v as i128;
        i += 1;
    }
    proof {
        assert(numbers@.take(len as int) =~= numbers@);
    }
    Some(Center { num: sum, den: len as u64 })
}

/// Moves a cluster with members to their mean; one without keeps its center.
pub fn update_centroid<T: NumberLike>(cluster: &mut Cluster<T>)
    requires
        old(cluster)@.center.wf(),
        old(cluster)@.members.len() <= MAX_DEN,
    ensures
        final(cluster)@.members == old(cluster)@.members,
        old(cluster)@.members.len() == 0 ==> final(cluster)@.center == old(cluster)@.center,
        old(cluster)@.members.len() > 0 ==> final(cluster)@.center == mean_of(old(cluster)@.members),
        final(cluster)@.center.wf(),
{
    if cluster.members().len() > 0 {
        let mean: Option<Center> = centroid(cluster.members().as_slice());
        match mean {
            Some(v) => {
                cluster.set_center(v);
            },
            None => {},
        }
    }
}

/// One epoch: every cluster gives up its members, every sample of `data`
/// goes, in input order, to the cluster nearest to it, and every cluster
/// that got a member moves to the mean of its members.
pub fn epoch<T: NumberLike>(data: &Vec<T>, clusters: &mut Vec<Cluster<T>>)
    requires
        old(clusters).len() > 0,
        all_wf(centers_of(old(clusters)@)),
        data.len() <= MAX_DEN,
    ensures
        final(clusters).len() == old(clusters).len(),
        centers_of(final(clusters)@) == step_centers(data@, centers_of(old(clusters)@)),
        forall|j: int|
            0 <= j < old(clusters).len() ==> (#[trigger] final(clusters)@[j])@.members == members_of(
                data@,
                centers_of(old(clusters)@),
                j,
            ),
        pooled(final(clusters)@) == data@.to_multiset(),
        all_wf(centers_of(final(clusters)@)),
{
    let ghost start = centers_of(clusters@);
    let count: usize = clusters.len();
    let mut j: usize = 0;
    while j < count
        invariant
            count == clusters.len(),
            0 <= j <= count,
            centers_of(clusters@) == start,
            forall|m: int| 0 <= m < j ==> (#[trigger] clusters@[m])@.members == Seq::<T>::empty(),
        decreases count - j,
    {
        let ghost before = clusters@;
        clusters[j].reset();
        proof {
            assert(centers_of(clusters@) =~= centers_of(before));
        }
        j += 1;
    }
    proof {
        lemma_pooled_empty(clusters@);
        assert(data@.take(0) =~= Seq::<T>::empty());
        assert(data@.take(0).to_multiset() =~= Multiset::<T>::empty()) by {
            broadcast use vstd::seq_lib::to_multiset_len;
            assert(data@.take(0).to_multiset().len() == 0);
        }
    }
    let mut i: usize = 0;
    while i < data.len()
        invariant
            count == clusters.len(),
            count > 0,
            0 <= i <= data.len(),
            centers_of(clusters@) == start,
            all_wf(start),
            forall|m: int|
                0 <= m < count ==> (#[trigger] clusters@[m])@.members == members_of(
                    data@.take(i as int),
                    start,
                    m,
                ),
            pooled(clusters@) == data@.take(i as int).to_multiset(),
        decreases data.len() - i,
    {
        let el: T = data[i];
        proof {
            broadcast use vstd::seq_lib::to_multiset_build;
            assert(data@.take(i + 1).drop_last() =~= data@.take(i as int));
            assert(data@.take(i + 1).last() == el);
            assert(data@.take(i + 1) =~= data@.take(i as int).push(el));
        }
        qualify(el, clusters);
        i += 1;
    }
    proof {
        assert(data@.take(data.len() as int) =~= data@);
    }
    let ghost assigned = clusters@;
    let mut j: usize = 0;
    while j < count
        invariant
            count == clusters.len(),
            count == assigned.len(),
            count == start.len(),
            0 <= j <= count,
            data.len() <= MAX_DEN,
            all_wf(centers_of(clusters@)),
            forall|m: int| 0 <= m < count ==> (#[trigger] clusters@[m])@.members == assigned[m]@.members,
            forall|m: int|
                0 <= m < count ==> (#[trigger] assigned[m])@.members == members_of(data@, start, m),
            forall|m: int|
                0 <= m < j ==> (#[trigger] clusters@[m])@.center == step_centers(data@, start)[m],
            forall|m: int| j <= m < count ==> (#[trigger] clusters@[m])@.center == start[m],
        decreases count - j,
    {
        let ghost before = clusters@;
        proof {
            lemma_members_len(data@, start, j as int);
            assert(centers_of(before)[j as int].wf());
        }
        update_centroid(&mut clusters[j]);
        proof {
            assert forall|m: int| 0 <= m < count implies (#[trigger] centers_of(clusters@)[m]).wf() by {
                if m != j {
                    assert(clusters@[m] == before[m]);
                    assert(centers_of(before)[m].wf());
                }
            }
        }
        j += 1;
    }
    proof {
        lemma_pooled_same(clusters@, assigned);
        assert(centers_of(clusters@) =~= step_centers(data@, start));
    }
}

/// Clusters `data` from the given `seeds`: one cluster for each seed, in
/// seed order, after exactly `epochs` epochs (none where `epochs` is not
/// positive).
pub fn solve_seeded<T: NumberLike>(data: &Vec<T>, seeds: &Vec<Center>, epochs: i32) -> (r: Vec<
    Cluster<T>,
>)
    requires
        seeds.len() > 0,
        all_wf(seeds@),
        data.len() <= MAX_DEN,
    ensures
        is_solution(data@, seeds@, epochs as int, r@),
        all_wf(centers_of(r@)),
        epochs > 0 ==> pooled(r@) == data@.to_multiset(),
{
    let mut clusters: Vec<Cluster<T>> = Vec::new();
    let mut j: usize = 0;
    while j < seeds.len()
        invariant
            0 <= j <= seeds.len(),
            clusters.len() == j,
            forall|m: int|
                0 <= m < j ==> (#[trigger] clusters@[m])@.center == seeds@[m] && clusters@[m]@.members
                    == Seq::<T>::empty(),
        decreases seeds.len() - j,
    {
        clusters.push(Cluster::new(seeds[j]));
        j += 1;
    }
    proof {
        assert(centers_of(clusters@) =~= seeds@);
    }
    let mut e: i32 = 0;
    while e < epochs
        invariant
            0 <= e,
            epochs > 0 ==> e <= epochs,
            epochs <= 0 ==> e == 0,
            clusters.len() == seeds.len(),
            seeds.len() > 0,
            data.len() <= MAX_DEN,
            all_wf(centers_of(clusters@)),
            centers_of(clusters@) == centers_after(data@, seeds@, e as nat),
            is_solution(data@, seeds@, e as int, clusters@),
            e > 0 ==> pooled(clusters@) == data@.to_multiset(),
        decreases epochs - e,
    {
        epoch(data, &mut clusters);
        e += 1;
    }
    clusters
}

/// The smallest and the largest value in `data`.
pub fn range_of<T: NumberLike>(data: &Vec<T>) -> (r: (i64, i64))
    requires
        data.len() > 0,
    ensures
        is_min(data@, r.0 as int),
        is_max(data@, r.1 as int),
{
    let mut lo: i64 = data[0].to_i64();
    let mut hi: i64 = lo;
    let ghost mut at_lo: int = 0;
    let ghost mut at_hi: int = 0;
    let mut i: usize = 1;
    while i < data.len()
        invariant
            1 <= i <= data.len(),
            0 <= at_lo < i,
            0 <= at_hi < i,
            data@[at_lo].value() == lo,
            data@[at_hi].value() == hi,
            forall|m: int| 0 <= m < i ==> lo <= (#[trigger] data@[m]).value() <= hi,
        decreases data.len() - i,
    {
        let v: i64 = data[i].to_i64();
        if v < lo {
            lo = v;
            proof {
                at_lo = i as int;
            }
        }
        if v > hi {
            hi = v;
            proof {
                at_hi = i as int;
            }
        }
        i += 1;
    }
    (lo, hi)
}

/// Clusters `data` into `clusters_count` clusters: the centers start at
/// random between the smallest and the largest sample, and then `epochs`
/// epochs run (none where `epochs` is not positive).
pub fn solve<T: NumberLike>(data: &Vec<T>, clusters_count: i32, epochs: i32) -> (r: Vec<Cluster<T>>)
    requires
        0 < data.len() <= MAX_DEN,
        clusters_count > 0,
    ensures
        r.len() == clusters_count,
        exists|seeds: Seq<Center>| #[trigger]
            is_seeding(data@, seeds, clusters_count as int) && is_solution(
                data@,
                seeds,
                epochs as int,
                r@,
            ),
        all_wf(centers_of(r@)),
        epochs > 0 ==> pooled(r@) == data@.to_multiset(),
        epochs <= 0 ==> forall|j: int|
            0 <= j < r.len() ==> (#[trigger] r@[j])@.members == Seq::<T>::empty() && in_spread(
                data@,
                r@[j]@.center,
            ),
{
    let (lo, hi) = range_of(data);
    let ghost at_lo = choose|i: int| 0 <= i < data.len() && (#[trigger] data@[i]).value() == lo;
    let ghost at_hi = choose|i: int| 0 <= i < data.len() && (#[trigger] data@[i]).value() == hi;
    assert(lo <= data@[at_hi].value());
    let mut seeds: Vec<Center> = Vec::new();
    let mut j: i32 = 0;
    while j < clusters_count
        invariant
            0 <= j <= clusters_count,
            seeds.len() == j,
            lo <= hi,
            0 <= at_lo < data.len(),
            0 <= at_hi < data.len(),
            data@[at_lo].value() == lo,
            data@[at_hi].value() == hi,
            forall|m: int| 0 <= m < j ==> (#[trigger] seeds@[m]).wf() && in_spread(data@, seeds@[m]),
        decreases clusters_count - j,
    {
        let seed: Center = random_center(lo, hi);
        proof {
            assert(data@[at_lo].value() * seed.den <= seed.num);
            assert(seed.num <= data@[at_hi].value() * seed.den);
        }
        seeds.push(seed);
        j += 1;
    }
    let clusters: Vec<Cluster<T>> = solve_seeded(data, &seeds, epochs);
    proof {
        assert(is_seeding(data@, seeds@, clusters_count as int));
    }
    clusters
}

} // verus!
