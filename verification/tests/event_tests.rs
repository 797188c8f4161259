use shabti::event::{boundary_true_positives, detect_time_gaps, merge_boundaries, segment_events};

fn rates(tp: usize, detected: usize, truth: usize) -> (f32, f32) {
    if detected == 0 || truth == 0 {
        return (0.0, 0.0);
    }
    (tp as f32 / detected as f32, tp as f32 / truth as f32)
}

#[test]
fn segment_events_no_boundaries() {
    let segments = segment_events(5, &[]);
    assert_eq!(segments.len(), 1);
    assert_eq!(segments[0], vec![0, 1, 2, 3, 4]);
}

#[test]
fn segment_events_one_boundary() {
    let segments = segment_events(5, &[2]);
    assert_eq!(segments.len(), 2);
    assert_eq!(segments[0], vec![0, 1, 2]);
    assert_eq!(segments[1], vec![3, 4]);
}

#[test]
fn segment_events_multiple_boundaries() {
    let segments = segment_events(6, &[1, 3]);
    assert_eq!(segments.len(), 3);
    assert_eq!(segments[0], vec![0, 1]);
    assert_eq!(segments[1], vec![2, 3]);
    assert_eq!(segments[2], vec![4, 5]);
}

#[test]
fn segment_events_zero_utterances() {
    let segments = segment_events(0, &[]);
    assert!(segments.is_empty());
}

#[test]
fn segment_events_skips_out_of_order_and_out_of_range() {
    // 3 then 1 (behind the last cut), and 9 (past the end) are ignored;
    // a boundary at the last utterance leaves no trailing segment.
    let segments = segment_events(5, &[3, 1, 9, 4]);
    assert_eq!(segments, vec![vec![0, 1, 2, 3], vec![4]]);
    let segments = segment_events(4, &[3]);
    assert_eq!(segments, vec![vec![0, 1, 2, 3]]);
}

#[test]
fn detect_time_gaps_long_gap() {
    let timestamps = vec![1000, 1010, 1020, 5000, 5010, 5020];
    let gap_threshold = 3600;
    let gaps = detect_time_gaps(&timestamps, gap_threshold);
    assert_eq!(gaps.len(), 1);
    assert_eq!(gaps[0], 2, "gap should be between index 2 and 3");
}

#[test]
fn detect_time_gaps_no_gap() {
    let timestamps = vec![1000, 1010, 1020, 1030];
    let gaps = detect_time_gaps(&timestamps, 3600);
    assert!(gaps.is_empty());
}

#[test]
fn detect_time_gaps_multiple_gaps() {
    let timestamps = vec![1000, 1010, 5000, 5010, 9000, 9010];
    let gaps = detect_time_gaps(&timestamps, 3600);
    assert_eq!(gaps.len(), 2);
    assert_eq!(gaps[0], 1);
    assert_eq!(gaps[1], 3);
}

#[test]
fn detect_time_gaps_empty_input() {
    let gaps = detect_time_gaps(&[], 3600);
    assert!(gaps.is_empty());
}

#[test]
fn detect_time_gaps_single_entry() {
    let gaps = detect_time_gaps(&[1000], 3600);
    assert!(gaps.is_empty());
}

#[test]
fn detect_time_gaps_counts_backwards_jumps_and_exact_threshold() {
    let gaps = detect_time_gaps(&[5000, 1000, 4600], 3600);
    assert_eq!(gaps, vec![0]);
}

#[test]
fn detect_time_gaps_step_equal_to_threshold_is_no_gap() {
    assert!(detect_time_gaps(&[0, 3600], 3600).is_empty());
    assert_eq!(detect_time_gaps(&[0, 3601], 3600), vec![0]);
}

#[test]
fn merge_boundaries_deduplicates() {
    let semantic = vec![(2usize, 0.8f32), (5, 0.7)];
    let temporal = vec![2, 4];
    let merged = merge_boundaries(&semantic, &temporal, 0.0);
    let indices: Vec<usize> = merged.iter().map(|b| b.0).collect();
    assert_eq!(indices.len(), 3);
    assert!(indices.contains(&2));
    assert!(indices.contains(&4));
    assert!(indices.contains(&5));
}

#[test]
fn merge_boundaries_preserves_semantic_distance() {
    let semantic = vec![(3usize, 0.9f32)];
    let temporal = vec![3];
    let merged = merge_boundaries(&semantic, &temporal, 0.0);
    assert_eq!(merged.len(), 1);
    assert_eq!(merged[0].0, 3);
    assert!((merged[0].1 - 0.9).abs() < 1e-6);
}

#[test]
fn merge_boundaries_sorted_by_index() {
    let semantic = vec![(5usize, 0.7f32)];
    let temporal = vec![2];
    let merged = merge_boundaries(&semantic, &temporal, 0.0);
    assert_eq!(merged[0].0, 2);
    assert_eq!(merged[1].0, 5);
}

#[test]
fn merge_boundaries_temporal_only_gets_fill_and_last_semantic_wins() {
    let semantic = vec![(4usize, 0.5f32), (1, 0.3), (4, 0.6)];
    let temporal = vec![7, 1, 7];
    let merged = merge_boundaries(&semantic, &temporal, 0.0);
    assert_eq!(merged, vec![(1, 0.3), (4, 0.6), (7, 0.0)]);
}

#[test]
fn evaluate_boundaries_perfect_match() {
    let tp = boundary_true_positives(&[3, 7], &[3, 7], 0);
    let (precision, recall) = rates(tp, 2, 2);
    assert!((precision - 1.0).abs() < 1e-6);
    assert!((recall - 1.0).abs() < 1e-6);
}

#[test]
fn evaluate_boundaries_with_tolerance() {
    let tp = boundary_true_positives(&[4], &[3], 1);
    let (precision, recall) = rates(tp, 1, 1);
    assert!((precision - 1.0).abs() < 1e-6, "within tolerance should match");
    assert!((recall - 1.0).abs() < 1e-6);
}

#[test]
fn evaluate_boundaries_missed_detection() {
    let tp = boundary_true_positives(&[3], &[3, 7], 0);
    let (precision, recall) = rates(tp, 1, 2);
    assert!((precision - 1.0).abs() < 1e-6, "detected boundary is correct");
    assert!((recall - 0.5).abs() < 1e-6, "only 1 of 2 ground truth found");
}

#[test]
fn evaluate_boundaries_false_positive() {
    let tp = boundary_true_positives(&[3, 5], &[3], 0);
    let (precision, recall) = rates(tp, 2, 1);
    assert!((precision - 0.5).abs() < 1e-6, "1 of 2 detected is correct");
    assert!((recall - 1.0).abs() < 1e-6, "ground truth boundary found");
}

#[test]
fn evaluate_boundaries_empty_detected() {
    let tp = boundary_true_positives(&[], &[3], 0);
    assert_eq!(tp, 0);
    let (precision, recall) = rates(tp, 0, 1);
    assert_eq!(precision, 0.0);
    assert_eq!(recall, 0.0);
}

#[test]
fn evaluate_boundaries_empty_ground_truth() {
    let tp = boundary_true_positives(&[3], &[], 0);
    assert_eq!(tp, 0);
    let (precision, recall) = rates(tp, 1, 0);
    assert_eq!(precision, 0.0);
    assert_eq!(recall, 0.0);
}

#[test]
fn true_positives_claim_each_truth_once() {
    // Both detections are near truth 3, but only one may claim it.
    assert_eq!(boundary_true_positives(&[3, 4], &[3], 1), 1);
    // Matching is greedy: 4 takes truth 3 first, so 2 finds nothing free,
    // although 4 could have matched 5.
    assert_eq!(boundary_true_positives(&[4, 2], &[3, 5], 1), 1);
    assert_eq!(boundary_true_positives(&[4, 6], &[3, 5], 1), 2);
}

#[test]
fn segment_events_without_utterances_ignores_boundaries() {
    assert!(segment_events(0, &[usize::MAX, 3]).is_empty());
}
