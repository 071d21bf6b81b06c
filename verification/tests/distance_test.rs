use voxel::{calculate_chunk_distance, token_eq};
use voxel::chunk_loader::{scan_chunks, sort_by_distance};

#[test]
fn chunk_distance_is_rounded_down() {
    assert_eq!(calculate_chunk_distance(&[0, 0, 0], &[3, 4, 0]), 5);
    assert_eq!(calculate_chunk_distance(&[0, 0, 0], &[1, 1, 1]), 1);
    assert_eq!(calculate_chunk_distance(&[0, 0, 0], &[2, 2, 2]), 3);
    assert_eq!(calculate_chunk_distance(&[5, 5, 5], &[5, 5, 5]), 0);
    assert_eq!(calculate_chunk_distance(&[-3, 0, 0], &[3, 0, 0]), 6);
    assert_eq!(calculate_chunk_distance(&[0, 0, 0], &[0, 0, 1_000_000_000]), 1_000_000_000);
}

#[test]
fn tokens_compare_byte_by_byte() {
    let a = [1u8; 16];
    let mut b = [1u8; 16];
    assert!(token_eq(&a, &b));
    b[15] = 2;
    assert!(!token_eq(&a, &b));
}

#[test]
fn scan_covers_the_ball_below_the_view_distance() {
    assert_eq!(scan_chunks(&[0, 0, 0], 1), vec![[0, 0, 0]]);
    let v = scan_chunks(&[0, 0, 0], 2);
    assert_eq!(v.len(), 27);
    assert!(v.contains(&[1, 1, 1]));
    assert!(!v.contains(&[2, 0, 0]));
    assert!(scan_chunks(&[0, 0, 0], 0).is_empty());
}

#[test]
fn scan_centres_its_height_on_half_of_the_height() {
    let v = scan_chunks(&[0, 10, 0], 6);
    assert!(v.contains(&[0, 5, 0]));
    assert!(v.iter().all(|c| c[1] >= 4 && c[1] <= 11));
    let w = scan_chunks(&[0, -3, 0], 2);
    assert!(w.contains(&[0, -2, 0]));
    assert!(!w.contains(&[0, -1, 0]));
    assert!(w.iter().all(|c| c[1] >= -3));
}

#[test]
fn sorting_by_distance() {
    let v = vec![[3, 0, 0], [0, 0, 0], [0, -2, 0], [1, 1, 0], [0, 0, 1]];
    let s = sort_by_distance(&v, &[0, 0, 0]);
    assert_eq!(s.len(), 5);
    assert_eq!(s[0], [0, 0, 0]);
    assert_eq!(s[1], [0, 0, 1]);
    assert_eq!(s[2], [1, 1, 0]);
    assert_eq!(s[3], [0, -2, 0]);
    assert_eq!(s[4], [3, 0, 0]);
    let far = vec![[i64::MAX, i64::MAX, i64::MAX], [i64::MIN, 0, 0], [0, 0, 0]];
    let t = sort_by_distance(&far, &[0, 0, 0]);
    assert_eq!(t, vec![[0, 0, 0], [i64::MIN, 0, 0], [i64::MAX, i64::MAX, i64::MAX]]);
}

#[test]
fn distance_below_view_matches_squared_distance() {
    for c in [[1i64, 1, 1], [2, 0, 0], [1, 1, 0], [0, 0, 0], [1, 1, 2]] {
        let d = calculate_chunk_distance(&[0, 0, 0], &c);
        let sq = c[0] * c[0] + c[1] * c[1] + c[2] * c[2];
        assert_eq!(d < 2, sq < 4);
        assert_eq!(d > 1, sq >= 4);
        assert_eq!(scan_chunks(&[0, 0, 0], 2).contains(&c), d < 2);
    }
}
