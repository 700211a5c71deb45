use kmeans::assign::{assign_data_to_clusters, loss_clusters, squared_distance};
use kmeans::driver::{kmeans, kmeans_from_starts, pick_start, run_trial, shuffle_prefix};
use kmeans::model::KmeansError;
use kmeans::refine::{cluster_centroid, kmeans_iter, rounded_div};
use rand::Rng;

fn uniform(rng: &mut rand::rngs::ThreadRng, min: i64, max: i64) -> i64 {
    rng.gen_range(min..max)
}

/// Three groups of 100 points, in thousandths: around (10, 10), (0, 0) and (-9.5, 0).
fn three_groups() -> Vec<Vec<i64>> {
    let mut rng = rand::thread_rng();
    let mut ps = vec![];
    const N: usize = 100;
    for _ in 0..N {
        ps.push(vec![uniform(&mut rng, 9000, 11000), uniform(&mut rng, 9000, 11000)]);
    }
    for _ in 0..N {
        ps.push(vec![uniform(&mut rng, -1000, 1000), uniform(&mut rng, -1000, 1000)]);
    }
    for _ in 0..N {
        ps.push(vec![uniform(&mut rng, -10000, -9000), uniform(&mut rng, -1000, 1000)]);
    }
    ps
}

#[test]
fn test_three_groups() {
    let ps = three_groups();
    let (means, data, loss) = kmeans(&ps, 3, 4).unwrap();
    for (i, m) in means.iter().enumerate() {
        println!("{}: mean: [{}, {}]", i, m[0], m[1]);
    }
    println!("total loss: {}", loss);
    assert_eq!(means.len(), 3);
    assert_eq!(data.len(), 300);
}

#[test]
fn three_groups_converge_to_their_centroids() {
    let ps = three_groups();
    let (means, data, loss) = kmeans(&ps, 3, 40).unwrap();
    for centre in [[10000i64, 10000], [0, 0], [-9500, 0]] {
        let close = means
            .iter()
            .any(|m| (m[0] - centre[0]).abs() <= 500 && (m[1] - centre[1]).abs() <= 500);
        assert!(close, "no mean near {:?}: {:?}", centre, means);
    }
    // Variance of a uniform spread of width w is w^2 / 12 per coordinate.
    let expected: u128 = 100 * (2 * 2000 * 2000 / 12) * 2 + 100 * (1000 * 1000 / 12 + 2000 * 2000 / 12);
    assert!(loss > expected * 7 / 10 && loss < expected * 13 / 10, "loss {}", loss);
    assert_eq!(loss, loss_clusters(&means, &ps, &data.iter().map(|p| p.0).collect()));
}

#[test]
fn k_zero_is_invalid() {
    let ps = vec![vec![1, 2], vec![3, 4]];
    assert_eq!(kmeans(&ps, 0, 3).unwrap_err(), KmeansError::InvalidK);
}

#[test]
fn k_above_point_count_is_invalid() {
    let ps = vec![vec![1, 2], vec![3, 4]];
    assert_eq!(kmeans(&ps, 3, 3).unwrap_err(), KmeansError::InvalidK);
    let empty: Vec<Vec<i64>> = vec![];
    assert_eq!(kmeans(&empty, 1, 1).unwrap_err(), KmeansError::InvalidK);
}

#[test]
fn every_point_appears_once_in_order() {
    let ps = three_groups();
    let (means, data, _) = kmeans(&ps, 5, 10).unwrap();
    assert_eq!(means.len(), 5);
    assert_eq!(data.len(), ps.len());
    for (i, (c, p)) in data.iter().enumerate() {
        assert!(*c < 5);
        assert_eq!(p, &ps[i]);
    }
}

#[test]
fn k_equal_to_point_count_gives_zero_loss() {
    let ps = vec![vec![0, 0], vec![5, 1], vec![-3, 7], vec![2, 2], vec![9, -9]];
    let (means, data, loss) = kmeans(&ps, 5, 2).unwrap();
    assert_eq!(loss, 0);
    for (c, p) in data.iter() {
        assert_eq!(&means[*c], p);
    }
    let mut seen: Vec<usize> = data.iter().map(|p| p.0).collect();
    seen.sort();
    assert_eq!(seen, vec![0, 1, 2, 3, 4]);
}

#[test]
fn identical_points_empty_a_cluster() {
    let ps = vec![vec![4, 4, 4]; 10];
    assert_eq!(kmeans(&ps, 2, 5).unwrap_err(), KmeansError::EmptyCluster);
    assert_eq!(kmeans(&ps, 10, 1).unwrap_err(), KmeansError::EmptyCluster);
}

#[test]
fn identical_points_single_cluster_has_zero_loss() {
    let ps = vec![vec![4, 4, 4]; 10];
    let (means, _, loss) = kmeans(&ps, 1, 2).unwrap();
    assert_eq!(means, vec![vec![4, 4, 4]]);
    assert_eq!(loss, 0);
}

#[test]
fn duplicate_seeds_fail_with_empty_cluster() {
    let ps = vec![vec![1], vec![1], vec![8]];
    assert_eq!(run_trial(&ps, &vec![0, 1]).unwrap_err(), KmeansError::EmptyCluster);
    assert_eq!(
        kmeans_from_starts(&ps, 2, &vec![vec![0, 1], vec![1, 0]]).unwrap_err(),
        KmeansError::EmptyCluster
    );
}

/// Points on a line: {0, 1}, {10, 11} and {20, 21}.
fn line() -> Vec<Vec<i64>> {
    vec![vec![0], vec![1], vec![10], vec![11], vec![20], vec![21]]
}

#[test]
fn best_restart_is_kept() {
    let ps = line();
    // Seeds 0, 1, 2 split the first pair; seeds 0, 2, 4 find the three pairs.
    let bad = run_trial(&ps, &vec![0, 1, 2]).unwrap();
    let good = run_trial(&ps, &vec![0, 2, 4]).unwrap();
    assert_eq!(bad.2, 36 + 25 + 16 + 25);
    assert_eq!(good.2, 3);
    let (means, data, loss) =
        kmeans_from_starts(&ps, 3, &vec![vec![0, 1, 2], vec![0, 2, 4]]).unwrap();
    assert_eq!(loss, good.2);
    assert_eq!(means, good.0);
    assert_eq!(data.iter().map(|p| p.0).collect::<Vec<_>>(), good.1);
}

#[test]
fn failed_restart_is_skipped() {
    let ps = vec![vec![1], vec![1], vec![8]];
    let (means, _, loss) = kmeans_from_starts(&ps, 2, &vec![vec![0, 1], vec![1, 2]]).unwrap();
    assert_eq!(means, vec![vec![1], vec![8]]);
    assert_eq!(loss, 0);
}

#[test]
fn ties_keep_the_earlier_restart() {
    let ps = line();
    // Both starts reach the same loss with the clusters in swapped order.
    let a = run_trial(&ps, &vec![0, 5]).unwrap();
    let b = run_trial(&ps, &vec![5, 0]).unwrap();
    assert_eq!(a.2, 122);
    assert_eq!(a.2, b.2);
    assert_ne!(a.0, b.0);
    let (means, _, loss) = kmeans_from_starts(&ps, 2, &vec![vec![5, 0], vec![0, 5]]).unwrap();
    assert_eq!(loss, b.2);
    assert_eq!(means, b.0);
}

#[test]
fn loss_does_not_increase_during_refinement() {
    let ps = three_groups();
    let mut means = vec![ps[0].clone(), ps[100].clone(), ps[200].clone()];
    let mut labels = vec![0; ps.len()];
    let mut prev = assign_data_to_clusters(&means, &ps, &mut labels);
    for _ in 0..10 {
        let mut next_means = vec![];
        for c in 0..3 {
            next_means.push(cluster_centroid(&ps, &labels, c).unwrap());
        }
        let same_labels = loss_clusters(&next_means, &ps, &labels);
        assert!(same_labels <= prev);
        means = next_means;
        let next = assign_data_to_clusters(&means, &ps, &mut labels);
        assert!(next <= same_labels);
        prev = next;
    }
}

#[test]
fn refinement_returns_loss_of_its_result() {
    let ps = line();
    let mut means = vec![vec![0], vec![1]];
    let mut labels = vec![0; ps.len()];
    let first = assign_data_to_clusters(&means, &ps, &mut labels);
    assert_eq!(first, 81 + 100 + 361 + 400);
    let loss = kmeans_iter(&mut means, &ps, &mut labels).unwrap();
    assert_eq!(means, vec![vec![1], vec![16]]);
    assert_eq!(labels, vec![0, 0, 1, 1, 1, 1]);
    assert_eq!(loss, 1 + 36 + 25 + 16 + 25);
    assert_eq!(loss, loss_clusters(&means, &ps, &labels));
}

#[test]
fn assignment_twice_is_identical() {
    let ps = three_groups();
    let means = vec![vec![0, 0], vec![10000, 10000], vec![-9000, 0]];
    let mut first = vec![0; ps.len()];
    let mut second = vec![2; ps.len()];
    let a = assign_data_to_clusters(&means, &ps, &mut first);
    let b = assign_data_to_clusters(&means, &ps, &mut second);
    let c = assign_data_to_clusters(&means, &ps, &mut first);
    assert_eq!(first, second);
    assert_eq!(a, b);
    assert_eq!(a, c);
}

#[test]
fn ties_go_to_the_lowest_index() {
    let ps = vec![vec![5]];
    let means = vec![vec![7], vec![3], vec![3]];
    let mut labels = vec![9];
    let loss = assign_data_to_clusters(&means, &ps, &mut labels);
    assert_eq!(labels, vec![0]);
    assert_eq!(loss, 4);
}

#[test]
fn squared_distance_exact() {
    assert_eq!(squared_distance(&vec![1, 2], &vec![4, 6]), 25);
    assert_eq!(squared_distance(&vec![-16777216], &vec![16777216]), 1125899906842624);
    assert_eq!(squared_distance(&vec![], &vec![]), 0);
}

#[test]
fn rounded_division_rounds_halves_up() {
    assert_eq!(rounded_div(7, 2), 4);
    assert_eq!(rounded_div(-7, 2), -3);
    assert_eq!(rounded_div(5, 3), 2);
    assert_eq!(rounded_div(-5, 3), -2);
    assert_eq!(rounded_div(4, 3), 1);
    assert_eq!(rounded_div(-4, 3), -1);
    assert_eq!(rounded_div(0, 9), 0);
}

#[test]
fn centroid_of_a_cluster() {
    let ps = vec![vec![0, 10], vec![3, -10], vec![100, 100], vec![4, 1]];
    let labels = vec![1, 1, 0, 1];
    assert_eq!(cluster_centroid(&ps, &labels, 1), Some(vec![2, 0]));
    assert_eq!(cluster_centroid(&ps, &labels, 0), Some(vec![100, 100]));
    assert_eq!(cluster_centroid(&ps, &labels, 2), None);
}

#[test]
fn random_starts_are_distinct_and_vary() {
    let mut varied = false;
    for _ in 0..20 {
        let s = pick_start(1000, 3);
        assert_eq!(s.len(), 3);
        assert!(s.iter().all(|&i| i < 1000));
        assert!(s[0] != s[1] && s[0] != s[2] && s[1] != s[2]);
        if s != vec![0, 1, 2] {
            varied = true;
        }
    }
    assert!(varied);
    let mut all = pick_start(8, 8);
    all.sort();
    assert_eq!(all, vec![0, 1, 2, 3, 4, 5, 6, 7]);
}

#[test]
fn invalid_k_wins_over_zero_restarts() {
    let ps = vec![vec![1, 2], vec![3, 4]];
    assert_eq!(kmeans(&ps, 0, 0).unwrap_err(), KmeansError::InvalidK);
    assert_eq!(kmeans(&ps, 3, 0).unwrap_err(), KmeansError::InvalidK);
}

#[test]
fn shuffle_prefix_follows_the_draws() {
    assert_eq!(shuffle_prefix(5, &vec![3, 1, 4]), vec![3, 1, 4]);
    assert_eq!(shuffle_prefix(5, &vec![4, 4, 4]), vec![4, 0, 1]);
    assert_eq!(shuffle_prefix(3, &vec![0, 1, 2]), vec![0, 1, 2]);
    assert_eq!(shuffle_prefix(4, &vec![]), Vec::<usize>::new());
}

#[test]
fn refinement_from_any_assignment() {
    let ps = line();
    let mut means = vec![vec![0], vec![21]];
    // Labels that are valid but not the nearest-mean assignment.
    let mut labels = vec![1, 0, 1, 0, 1, 0];
    let start = loss_clusters(&means, &ps, &labels);
    let loss = kmeans_iter(&mut means, &ps, &mut labels).unwrap();
    assert!(loss <= start);
    assert_eq!(loss, loss_clusters(&means, &ps, &labels));
    assert_eq!(labels.len(), ps.len());
    assert!(labels.iter().all(|&c| c < 2));
}

#[test]
fn refinement_from_an_empty_cluster_fails() {
    let ps = line();
    let mut means = vec![vec![0], vec![21]];
    let mut labels = vec![0; 6];
    assert_eq!(kmeans_iter(&mut means, &ps, &mut labels).unwrap_err(), KmeansError::EmptyCluster);
}

#[test]
fn three_groups_from_one_seed_per_group() {
    let ps = three_groups();
    let starts = vec![vec![0, 1, 2], vec![5, 150, 250]];
    let (means, _, loss) = kmeans_from_starts(&ps, 3, &starts).unwrap();
    let expected_means = [[10000i64, 10000], [0, 0], [-9500, 0]];
    for (m, centre) in means.iter().zip(expected_means.iter()) {
        assert!((m[0] - centre[0]).abs() <= 500 && (m[1] - centre[1]).abs() <= 500, "{:?}", means);
    }
    assert!(loss < 230_000_000, "loss {}", loss);
}
