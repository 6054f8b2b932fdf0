use vision_ai::metrics::{confusion_matrix, correct_count, false_negatives, false_positives, kfold_indices};

#[test]
fn test_confusion_matrix() {
    let preds = vec![0, 1, 2, 0];
    let targets = vec![0, 1, 1, 2];
    let m = confusion_matrix(&preds, &targets, 3);
    assert_eq!(m[0][0], 1);
    assert_eq!(m[1][1], 1);
}

#[test]
fn test_kfold_indices() {
    let folds = kfold_indices(10, 5);
    assert_eq!(folds.len(), 5);
    assert_eq!(folds[0].1.len(), 2);
    assert_eq!(folds[0].0.len(), 8);
}

#[test]
fn metrics_kfold_correct_sizes() {
    let folds = kfold_indices(20, 4);
    assert_eq!(folds.len(), 4);
    for (train, test) in &folds {
        assert_eq!(test.len(), 5);
        assert_eq!(train.len(), 15);
    }
}

#[test]
fn metrics_kfold_no_overlap() {
    let folds = kfold_indices(10, 5);
    for (train, test) in &folds {
        for &t in test { assert!(!train.contains(&t)); }
    }
}

#[test]
fn confusion_matrix_full_contents() {
    let preds = vec![0, 1, 2, 0];
    let targets = vec![0, 1, 1, 2];
    let m = confusion_matrix(&preds, &targets, 3);
    assert_eq!(m, vec![vec![1, 0, 0], vec![0, 1, 1], vec![1, 0, 0]]);
}

#[test]
fn confusion_matrix_counts_repeated_pairs() {
    let preds = vec![1, 1, 1, 0];
    let targets = vec![1, 1, 0, 0];
    let m = confusion_matrix(&preds, &targets, 2);
    assert_eq!(m, vec![vec![1, 1], vec![0, 2]]);
}

#[test]
fn confusion_matrix_uses_shorter_sequence() {
    let preds = vec![0, 1, 1];
    let targets = vec![0, 1];
    let m = confusion_matrix(&preds, &targets, 2);
    assert_eq!(m, vec![vec![1, 0], vec![0, 1]]);
}

#[test]
fn confusion_matrix_empty_and_zero_classes() {
    let m = confusion_matrix(&[], &[], 3);
    assert_eq!(m, vec![vec![0, 0, 0]; 3]);
    let z = confusion_matrix(&[], &[], 0);
    assert!(z.is_empty());
}

#[test]
fn confusion_trace_equals_correct_count() {
    let preds = vec![0, 2, 1, 1, 2, 0];
    let targets = vec![0, 1, 1, 2, 2, 0];
    let m = confusion_matrix(&preds, &targets, 3);
    let trace: usize = (0..3).map(|c| m[c][c]).sum();
    assert_eq!(trace, correct_count(&preds, &targets));
    assert_eq!(trace, 4);
}

#[test]
fn correct_count_values() {
    assert_eq!(correct_count(&[0, 1, 2], &[0, 1, 2]), 3);
    assert_eq!(correct_count(&[0, 0, 0], &[1, 1, 1]), 0);
    assert_eq!(correct_count(&[2, 1, 0, 1], &[2, 0, 0, 0]), 2);
    assert_eq!(correct_count(&[], &[]), 0);
}

#[test]
fn false_positives_and_negatives() {
    let preds = vec![0, 2, 1, 1, 2, 0, 1];
    let targets = vec![0, 1, 1, 2, 2, 0, 0];
    let m = confusion_matrix(&preds, &targets, 3);
    // predicted 1 but true 2 (once) and true 0 (once)
    assert_eq!(false_positives(&m, 1), Some(2));
    // true 1 but predicted 2 (once)
    assert_eq!(false_negatives(&m, 1), Some(1));
    assert_eq!(false_positives(&m, 0), Some(0));
    assert_eq!(false_negatives(&m, 0), Some(1));
}

#[test]
fn support_and_predicted_totals() {
    let preds = vec![0, 2, 1, 1, 2, 0, 1];
    let targets = vec![0, 1, 1, 2, 2, 0, 0];
    let m = confusion_matrix(&preds, &targets, 3);
    for c in 0..3 {
        let support = targets.iter().filter(|&&t| t == c).count();
        let predicted = preds.iter().filter(|&&p| p == c).count();
        assert_eq!(m[c][c] + false_negatives(&m, c).unwrap(), support);
        assert_eq!(m[c][c] + false_positives(&m, c).unwrap(), predicted);
    }
}

#[test]
fn kfold_exact_folds() {
    let folds = kfold_indices(7, 3);
    assert_eq!(folds.len(), 3);
    assert_eq!(folds[0], (vec![2, 3, 4, 5, 6], vec![0, 1]));
    assert_eq!(folds[1], (vec![0, 1, 4, 5, 6], vec![2, 3]));
    assert_eq!(folds[2], (vec![0, 1, 2, 3, 6], vec![4, 5]));
}

#[test]
fn kfold_partition_and_disjoint_tests() {
    let n = 23;
    let folds = kfold_indices(n, 4);
    for (train, test) in &folds {
        for x in 0..n {
            assert!(train.contains(&x) != test.contains(&x));
        }
        assert!(train.windows(2).all(|w| w[0] < w[1]));
    }
    for i in 0..4 {
        for j in 0..4 {
            if i != j {
                assert!(folds[i].1.iter().all(|x| !folds[j].1.contains(x)));
            }
        }
    }
}

#[test]
fn kfold_more_folds_than_samples() {
    let folds = kfold_indices(3, 5);
    assert_eq!(folds.len(), 5);
    for (train, test) in &folds {
        assert!(test.is_empty());
        assert_eq!(train, &vec![0, 1, 2]);
    }
}

#[test]
fn off_diagonal_sums_that_overflow() {
    let m = vec![vec![1, usize::MAX, 0], vec![0, 0, 0], vec![0, 1, 5]];
    assert_eq!(false_positives(&m, 1), None);
    assert_eq!(false_negatives(&m, 0), Some(usize::MAX));
    let r = vec![vec![0, usize::MAX, 1], vec![0, 0, 0], vec![0, 0, 0]];
    assert_eq!(false_negatives(&r, 0), None);
    assert_eq!(false_positives(&r, 2), Some(1));
}
