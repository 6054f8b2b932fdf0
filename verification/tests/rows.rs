use vision_ai::rows::{chunk_rows, copy_prefix, flatten_rows, split_rows};

#[test]
fn split_rows_takes_leading_slices() {
    let flat = vec![1.0, 2.0, 3.0, 4.0, 5.0, 6.0, 7.0];
    let rows = split_rows(&flat, 3, 2);
    assert_eq!(rows, vec![vec![1.0, 2.0], vec![3.0, 4.0], vec![5.0, 6.0]]);
}

#[test]
fn split_rows_zero_dim() {
    let rows = split_rows(&[1u8, 2], 3, 0);
    assert_eq!(rows, vec![Vec::<u8>::new(); 3]);
}

#[test]
fn chunk_rows_short_last_chunk() {
    let flat = vec![1, 2, 3, 4, 5];
    let rows = chunk_rows(&flat, 2, 10);
    assert_eq!(rows, vec![vec![1, 2], vec![3, 4], vec![5]]);
}

#[test]
fn chunk_rows_limited_count() {
    let flat = vec![1, 2, 3, 4, 5, 6];
    let rows = chunk_rows(&flat, 2, 2);
    assert_eq!(rows, vec![vec![1, 2], vec![3, 4]]);
    assert!(chunk_rows(&flat, 3, 0).is_empty());
    assert!(chunk_rows::<i32>(&[], 3, 4).is_empty());
}

#[test]
fn flatten_rows_concatenates() {
    let rows = vec![vec![1, 2], vec![], vec![3], vec![4, 5, 6]];
    assert_eq!(flatten_rows(&rows), vec![1, 2, 3, 4, 5, 6]);
}

#[test]
fn centres_save_load_roundtrip() {
    let centres = vec![vec![0.5, 1.5], vec![2.5, 3.5], vec![4.5, 5.5]];
    let flat = flatten_rows(&centres);
    assert_eq!(chunk_rows(&flat, 2, 3), centres);
    assert_eq!(split_rows(&flat, 3, 2), centres);
}

#[test]
fn copy_prefix_shorter_source() {
    let mut dst = vec![9, 9, 9, 9];
    copy_prefix(&mut dst, &[1, 2]);
    assert_eq!(dst, vec![1, 2, 9, 9]);
}

#[test]
fn copy_prefix_longer_source() {
    let mut dst = vec![0.0; 2];
    copy_prefix(&mut dst, &[1.0, 2.0, 3.0]);
    assert_eq!(dst, vec![1.0, 2.0]);
}
