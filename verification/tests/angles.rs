use mouse_actions::compare_angles::compare_angles_with_offset;

#[test]
fn identical_shapes_score_zero() {
    let shape: Vec<u64> = vec![0, 45_000, 90_000, 135_000, 180_000, 225_000, 270_000, 315_000];
    assert_eq!(compare_angles_with_offset(&shape, &shape), 0);
}

#[test]
fn quarter_turn_everywhere_scores_half_of_max() {
    // every sample is 90 degrees away: 90/180 of the maximal mean
    // distance, so the normalized score is 500 out of 1000
    let traced: Vec<u64> = vec![0; 12];
    let pattern: Vec<u64> = vec![90_000; 12];
    assert_eq!(compare_angles_with_offset(&traced, &pattern), 500);
}

#[test]
fn opposite_angles_score_maximal() {
    let traced: Vec<u64> = vec![0; 11];
    let pattern: Vec<u64> = vec![180_000; 11];
    assert_eq!(compare_angles_with_offset(&traced, &pattern), 1000);
}

#[test]
fn rotation_of_the_same_shape_scores_zero() {
    let pattern: Vec<u64> = vec![
        0, 0, 0, 90_000, 90_000, 90_000, 180_000, 180_000, 180_000, 270_000, 270_000, 270_000,
    ];
    let mut rotated = pattern.clone();
    rotated.rotate_left(5);
    assert_eq!(compare_angles_with_offset(&rotated, &pattern), 0);
}

#[test]
fn angles_wrap_around_the_circle() {
    // 350 degrees and 10 degrees are 20 degrees apart the short way
    let traced: Vec<u64> = vec![350_000];
    let pattern: Vec<u64> = vec![10_000];
    // 20/180 of the maximum, in thousandths: 111
    assert_eq!(compare_angles_with_offset(&traced, &pattern), 111);
}

#[test]
fn lengths_may_differ() {
    // a long trace against a two-sample pattern pairs cyclically
    let traced: Vec<u64> = vec![0, 90_000, 0, 90_000, 0, 90_000];
    let pattern: Vec<u64> = vec![0, 90_000];
    assert_eq!(compare_angles_with_offset(&traced, &pattern), 0);
    let shifted: Vec<u64> = vec![90_000, 0, 90_000, 0, 90_000, 0];
    assert_eq!(compare_angles_with_offset(&shifted, &pattern), 0);
}
