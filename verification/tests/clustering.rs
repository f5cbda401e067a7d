use k_means::center::{distance, is_closer, Center, MAX_DEN};
use k_means::cluster::Cluster;
use k_means::number::NumberLike;
use k_means::seeding::{random_center, seed_from, RESOLUTION};
use k_means::solver::{centroid, closest, epoch, qualify, range_of, solve, solve_seeded, update_centroid};

fn pooled_sorted(clusters: &Vec<Cluster<i32>>) -> Vec<i32> {
    let mut all: Vec<i32> = Vec::new();
    for c in clusters.iter() {
        for v in c.members().iter() {
            all.push(*v);
        }
    }
    all.sort();
    all
}

fn as_float(c: Center) -> f64 {
    c.num as f64 / c.den as f64
}

fn whole_seeds(values: &[i64]) -> Vec<Center> {
    values.iter().map(|v| Center::whole(*v)).collect()
}

#[test]
fn solve_returns_the_requested_count() {
    let data: Vec<i32> = vec![1, 2, 3];
    for k in 1..8 {
        for epochs in 0..4 {
            let clusters = solve(&data, k, epochs);
            assert_eq!(clusters.len(), k as usize);
        }
    }
}

#[test]
fn solve_keeps_clusters_that_end_up_empty() {
    let data: Vec<i32> = vec![7, 7];
    let clusters = solve(&data, 5, 3);
    assert_eq!(clusters.len(), 5);
    assert_eq!(clusters[0].members(), &vec![7, 7]);
    for c in clusters.iter().skip(1) {
        assert!(c.members().is_empty());
        assert_eq!(c.center(), Center { num: 7, den: 1 });
    }
    assert_eq!(clusters[0].center(), Center { num: 14, den: 2 });
}

#[test]
fn solve_partitions_the_dataset() {
    let data: Vec<i32> = vec![1, 2, 3, 4, 7, 8, 9, 10, 13, 14, 15, 17, 18, 19, 20, 3, 3, -5];
    let mut expected = data.clone();
    expected.sort();
    for k in 1..6 {
        for epochs in 1..6 {
            let clusters = solve(&data, k, epochs);
            assert_eq!(pooled_sorted(&clusters), expected);
        }
    }
}

#[test]
fn members_keep_input_order() {
    let data: Vec<i32> = vec![9, 1, 8, 2, 7, 3];
    let seeds = whole_seeds(&[2, 8]);
    let clusters = solve_seeded(&data, &seeds, 1);
    assert_eq!(clusters[0].members(), &vec![1, 2, 3]);
    assert_eq!(clusters[1].members(), &vec![9, 8, 7]);
}

#[test]
fn zero_epochs_leave_the_seeds() {
    let data: Vec<i32> = vec![1, 2, 3, 4];
    let seeds = vec![Center { num: 3, den: 2 }, Center::whole(4), Center::whole(-9)];
    let clusters = solve_seeded(&data, &seeds, 0);
    assert_eq!(clusters.len(), 3);
    for j in 0..3 {
        assert_eq!(clusters[j].center(), seeds[j]);
        assert!(clusters[j].members().is_empty());
    }
}

#[test]
fn negative_epochs_run_no_epoch() {
    let data: Vec<i32> = vec![1, 2, 3, 4];
    let seeds = whole_seeds(&[1, 4]);
    let clusters = solve_seeded(&data, &seeds, -3);
    assert_eq!(clusters.len(), 2);
    for j in 0..2 {
        assert_eq!(clusters[j].center(), seeds[j]);
        assert!(clusters[j].members().is_empty());
    }
}

#[test]
fn zero_epochs_with_random_seeds() {
    let data: Vec<i32> = vec![-4, 10, 3];
    let clusters = solve(&data, 6, 0);
    assert_eq!(clusters.len(), 6);
    for c in clusters.iter() {
        assert!(c.members().is_empty());
        let center = c.center();
        assert!(center.is_valid());
        assert!(-4 * (center.den as i128) <= center.num);
        assert!(center.num <= 10 * (center.den as i128));
    }
}

#[test]
fn empty_cluster_keeps_its_center() {
    let data: Vec<i32> = vec![1, 2, 3, 4, 5, 6, 7, 8, 9, 10];
    let seeds = vec![Center::whole(5), Center { num: 2001, den: 2 }];
    let clusters = solve_seeded(&data, &seeds, 4);
    assert_eq!(clusters[0].members().len(), 10);
    assert_eq!(clusters[0].center(), Center { num: 55, den: 10 });
    assert!(clusters[1].members().is_empty());
    assert_eq!(clusters[1].center(), Center { num: 2001, den: 2 });
}

#[test]
fn update_centroid_without_members_changes_nothing() {
    let mut cluster: Cluster<i64> = Cluster::new(Center { num: 7, den: 3 });
    update_centroid(&mut cluster);
    assert_eq!(cluster.center(), Center { num: 7, den: 3 });
    assert!(cluster.members().is_empty());
}

#[test]
fn update_centroid_moves_to_the_mean() {
    let mut cluster: Cluster<i64> = Cluster::new(Center::whole(100));
    cluster.add(1);
    cluster.add(2);
    cluster.add(4);
    update_centroid(&mut cluster);
    assert_eq!(cluster.center(), Center { num: 7, den: 3 });
    assert_eq!(cluster.members(), &vec![1, 2, 4]);
}

#[test]
fn separated_blocks_converge_from_fixed_seeds() {
    let data: Vec<i32> = vec![1, 2, 3, 100, 101, 102];
    let seeds = whole_seeds(&[1, 2]);
    let after_one = solve_seeded(&data, &seeds, 1);
    assert_eq!(after_one[0].center(), Center { num: 1, den: 1 });
    assert_eq!(after_one[1].center(), Center { num: 308, den: 5 });
    let clusters = solve_seeded(&data, &seeds, 10);
    assert_eq!(clusters[0].center(), Center { num: 6, den: 3 });
    assert_eq!(clusters[1].center(), Center { num: 303, den: 3 });
    assert_eq!(clusters[0].members(), &vec![1, 2, 3]);
    assert_eq!(clusters[1].members(), &vec![100, 101, 102]);
}

#[test]
fn separated_blocks_converge_from_random_seeds() {
    let data: Vec<i32> = vec![1, 2, 3, 100, 101, 102];
    let clusters = solve(&data, 2, 12);
    let mut centers: Vec<f64> = clusters.iter().map(|c| as_float(c.center())).collect();
    centers.sort_by(|a, b| a.partial_cmp(b).unwrap());
    assert!((centers[0] - 2.0).abs() < 1e-9);
    assert!((centers[1] - 101.0).abs() < 1e-9);
}

#[test]
fn ten_values_in_two_clusters() {
    let data: Vec<i32> = vec![1, 2, 3, 4, 5, 6, 7, 8, 9, 10];
    let clusters = solve(&data, 2, 50);
    assert_eq!(clusters.len(), 2);
    assert_eq!(pooled_sorted(&clusters), data);
    let a = as_float(clusters[0].center());
    let b = as_float(clusters[1].center());
    assert!(1.0 <= a && a <= 10.0);
    assert!(1.0 <= b && b <= 10.0);
    assert!((a - b).abs() >= 4.5);
}

#[test]
fn one_value_in_one_cluster() {
    let data: Vec<i32> = vec![5];
    let clusters = solve(&data, 1, 1);
    assert_eq!(clusters.len(), 1);
    assert_eq!(clusters[0].center(), Center { num: 5, den: 1 });
    assert_eq!(as_float(clusters[0].center()), 5.0);
    assert_eq!(clusters[0].members(), &vec![5]);
}

#[test]
fn sample_width_does_not_matter() {
    let narrow: Vec<i8> = vec![-3, 1, 2, 3, 40, 41, 42, 100];
    let wide: Vec<i64> = narrow.iter().map(|v| *v as i64).collect();
    let unsigned_free: Vec<i32> = narrow.iter().map(|v| *v as i32).collect();
    let seeds = vec![Center::whole(0), Center { num: 81, den: 2 }, Center::whole(90)];
    for epochs in 0..6 {
        let a = solve_seeded(&narrow, &seeds, epochs);
        let b = solve_seeded(&wide, &seeds, epochs);
        let c = solve_seeded(&unsigned_free, &seeds, epochs);
        for j in 0..3 {
            assert_eq!(a[j].center(), b[j].center());
            assert_eq!(a[j].center(), c[j].center());
            let ma: Vec<i64> = a[j].members().iter().map(|v| *v as i64).collect();
            let mc: Vec<i64> = c[j].members().iter().map(|v| *v as i64).collect();
            assert_eq!(&ma, b[j].members());
            assert_eq!(&mc, b[j].members());
        }
    }
}

#[test]
fn integer_centers_match_float_means() {
    let data: Vec<i32> = vec![1, 2, 3, 4, 7, 8, 9, 10, 13, 14, 15, 17, 18, 19, 20];
    let clusters = solve(&data, 4, 30);
    for c in clusters.iter() {
        if !c.members().is_empty() {
            let as_floats: Vec<f64> = c.members().iter().map(|v| *v as f64).collect();
            let mean: f64 = as_floats.iter().sum::<f64>() / as_floats.len() as f64;
            assert!((as_float(c.center()) - mean).abs() < 1e-9);
        }
    }
}

#[test]
fn centroid_of_nothing_is_none() {
    let none: Vec<i32> = Vec::new();
    assert_eq!(centroid(none.as_slice()), None);
}

#[test]
fn centroid_is_sum_over_count() {
    let numbers: Vec<i32> = vec![1, 2, 3, 4];
    assert_eq!(centroid(numbers.as_slice()), Some(Center { num: 10, den: 4 }));
    let negative: Vec<i64> = vec![-5, 2];
    assert_eq!(centroid(negative.as_slice()), Some(Center { num: -3, den: 2 }));
    let extreme: Vec<i64> = vec![i64::MAX, i64::MAX, i64::MIN];
    assert_eq!(
        centroid(extreme.as_slice()),
        Some(Center { num: i64::MAX as i128 - 1, den: 3 })
    );
}

#[test]
fn distance_is_scaled_by_the_denominator() {
    assert_eq!(distance(&Center { num: 7, den: 2 }, 3), 1);
    assert_eq!(distance(&Center { num: 7, den: 2 }, 4), 1);
    assert_eq!(distance(&Center { num: 7, den: 2 }, -1), 9);
    assert_eq!(distance(&Center::whole(5), 5), 0);
    assert_eq!(
        distance(&Center::whole(i64::MAX), i64::MIN),
        i64::MAX as i128 - i64::MIN as i128
    );
}

#[test]
fn is_closer_orders_fractions_exactly() {
    let a = Center { num: 7, den: 2 };
    let b = Center { num: 10, den: 3 };
    assert!(is_closer(&b, &a, 3));
    assert!(!is_closer(&a, &b, 3));
    assert!(is_closer(&a, &b, 4));
    let low = Center::whole(1);
    let high = Center::whole(3);
    assert!(!is_closer(&low, &high, 2));
    assert!(!is_closer(&high, &low, 2));
}

#[test]
fn closest_takes_the_first_of_equally_near() {
    let clusters: Vec<Cluster<i32>> = vec![
        Cluster::new(Center::whole(9)),
        Cluster::new(Center::whole(1)),
        Cluster::new(Center::whole(3)),
        Cluster::new(Center { num: 2, den: 2 }),
    ];
    assert_eq!(closest(&clusters, &2), 1);
    assert_eq!(closest(&clusters, &3), 2);
    assert_eq!(closest(&clusters, &6), 0);
    assert_eq!(closest(&clusters, &-4), 1);
}

#[test]
fn qualify_appends_to_the_nearest() {
    let mut clusters: Vec<Cluster<i32>> =
        vec![Cluster::new(Center::whole(0)), Cluster::new(Center::whole(10))];
    qualify(4, &mut clusters);
    qualify(6, &mut clusters);
    qualify(5, &mut clusters);
    qualify(-1, &mut clusters);
    assert_eq!(clusters[0].members(), &vec![4, 5, -1]);
    assert_eq!(clusters[1].members(), &vec![6]);
    assert_eq!(clusters[0].center(), Center::whole(0));
    assert_eq!(clusters[1].center(), Center::whole(10));
}

#[test]
fn epoch_resets_assigns_and_updates() {
    let data: Vec<i32> = vec![1, 2, 9, 10];
    let mut clusters: Vec<Cluster<i32>> =
        vec![Cluster::new(Center::whole(0)), Cluster::new(Center::whole(10))];
    clusters[0].add(77);
    clusters[1].add(78);
    epoch(&data, &mut clusters);
    assert_eq!(clusters[0].members(), &vec![1, 2]);
    assert_eq!(clusters[1].members(), &vec![9, 10]);
    assert_eq!(clusters[0].center(), Center { num: 3, den: 2 });
    assert_eq!(clusters[1].center(), Center { num: 19, den: 2 });
}

#[test]
fn cluster_methods() {
    let mut cluster: Cluster<u8> = Cluster::new(Center::whole(3));
    assert!(cluster.members().is_empty());
    cluster.add(4);
    cluster.add(2);
    assert_eq!(cluster.members(), &vec![4u8, 2u8]);
    cluster.set_center(Center { num: 9, den: 4 });
    assert_eq!(cluster.center(), Center { num: 9, den: 4 });
    assert_eq!(cluster.members(), &vec![4u8, 2u8]);
    cluster.reset();
    assert!(cluster.members().is_empty());
    assert_eq!(cluster.center(), Center { num: 9, den: 4 });
}

#[test]
fn range_of_finds_both_ends() {
    let data: Vec<i32> = vec![4, -7, 12, 0, 12];
    assert_eq!(range_of(&data), (-7, 12));
    let single: Vec<u32> = vec![u32::MAX];
    assert_eq!(range_of(&single), (u32::MAX as i64, u32::MAX as i64));
}

#[test]
fn center_validity() {
    assert!(Center::whole(i64::MIN).is_valid());
    assert!(Center::whole(i64::MAX).is_valid());
    assert!(!Center { num: 0, den: 0 }.is_valid());
    assert!(Center { num: 0, den: MAX_DEN }.is_valid());
    assert!(!Center { num: 0, den: MAX_DEN + 1 }.is_valid());
    assert!(Center { num: 1i128 << 63, den: 1 }.is_valid());
    assert!(!Center { num: (1i128 << 63) + 1, den: 1 }.is_valid());
    assert!(!Center { num: -(1i128 << 63) - 1, den: 1 }.is_valid());
    assert!(Center { num: (1i128 << 64), den: 2 }.is_valid());
}

#[test]
fn seed_from_places_on_the_grid() {
    assert_eq!(seed_from(3, 0), Center { num: 3 * RESOLUTION as i128, den: RESOLUTION });
    assert_eq!(seed_from(-2, 5), Center { num: -2 * RESOLUTION as i128 + 5, den: RESOLUTION });
    assert!(seed_from(i64::MAX, RESOLUTION as i64 - 1).is_valid());
    assert!(seed_from(i64::MIN, 0).is_valid());
}

#[test]
fn random_center_stays_in_range() {
    for _ in 0..200 {
        let c = random_center(-3, 4);
        assert!(c.is_valid());
        assert!(-3 * (c.den as i128) <= c.num);
        assert!(c.num < 4 * (c.den as i128));
    }
    for _ in 0..200 {
        let c = random_center(0, 1);
        assert!(0 <= c.num && c.num < c.den as i128);
    }
    assert_eq!(random_center(9, 9), Center { num: 9, den: 1 });
}

#[test]
fn random_centers_vary() {
    let first = random_center(0, 1_000_000);
    let mut differs = false;
    for _ in 0..64 {
        if random_center(0, 1_000_000) != first {
            differs = true;
        }
    }
    assert!(differs);
}

#[test]
fn samples_convert_without_loss() {
    assert_eq!((-128i8).to_i64(), -128);
    assert_eq!(i16::MAX.to_i64(), 32767);
    assert_eq!(i32::MIN.to_i64(), -2147483648);
    assert_eq!(i64::MAX.to_i64(), i64::MAX);
    assert_eq!(255u8.to_i64(), 255);
    assert_eq!(u16::MAX.to_i64(), 65535);
    assert_eq!(u32::MAX.to_i64(), 4294967295);
}
