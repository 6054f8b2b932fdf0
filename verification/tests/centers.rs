use vision_ai::centers::{
    center_indices_with, clusters_of, initial_center_indices, random_center_indices, shuffle_with,
};

#[test]
fn initial_centers_regular_intervals() {
    assert_eq!(initial_center_indices(10, 4), vec![0, 2, 5, 7]);
    assert_eq!(initial_center_indices(4, 4), vec![0, 1, 2, 3]);
    assert_eq!(initial_center_indices(3, 5), vec![0, 0, 1, 1, 2]);
    assert!(initial_center_indices(7, 0).is_empty());
}

#[test]
fn shuffle_follows_the_draws() {
    // i = 2 swaps with 0, then i = 1 swaps with itself
    assert_eq!(shuffle_with(3, &[0, 1]), vec![2, 1, 0]);
    // each position swapped with itself: no change
    assert_eq!(shuffle_with(4, &[3, 2, 1]), vec![0, 1, 2, 3]);
    // i = 3 with 1, i = 2 with 0, i = 1 with 0
    assert_eq!(shuffle_with(4, &[1, 0, 0]), vec![3, 2, 0, 1]);
    assert!(shuffle_with(0, &[]).is_empty());
    assert_eq!(shuffle_with(1, &[]), vec![0]);
}

#[test]
fn centres_with_draws_take_the_shuffle_prefix() {
    assert_eq!(center_indices_with(3, 2, &[0, 1]), vec![2, 1]);
    assert_eq!(center_indices_with(3, 9, &[0, 1]), vec![2, 1, 0]);
    assert!(center_indices_with(3, 0, &[0, 1]).is_empty());
}

#[test]
fn random_shuffle_is_a_permutation() {
    for n in 0..12 {
        let mut p = random_center_indices(n, n);
        p.sort();
        assert_eq!(p, (0..n).collect::<Vec<_>>());
    }
}

#[test]
fn random_shuffle_is_not_always_identity() {
    let identity: Vec<usize> = (0..10).collect();
    let moved = (0..50).any(|_| random_center_indices(10, 10) != identity);
    assert!(moved);
}

#[test]
fn random_centres_are_distinct_samples() {
    let idx = random_center_indices(8, 3);
    assert_eq!(idx.len(), 3);
    assert!(idx.iter().all(|&i| i < 8));
    for a in 0..3 {
        for b in (a + 1)..3 {
            assert_ne!(idx[a], idx[b]);
        }
    }
    let mut all = random_center_indices(4, 10);
    all.sort();
    assert_eq!(all, vec![0, 1, 2, 3]);
    assert!(random_center_indices(0, 3).is_empty());
}

#[test]
fn clusters_group_samples_by_centre() {
    let clusters = clusters_of(&[1, 0, 1, 2, 1], 4);
    assert_eq!(clusters, vec![vec![1], vec![0, 2, 4], vec![3], vec![]]);
    assert_eq!(clusters_of(&[], 2), vec![Vec::<usize>::new(), Vec::new()]);
    assert!(clusters_of(&[], 0).is_empty());
}
