use shabti::clustering::group_by_label;
use shabti::near_dedup::group_winners;

#[test]
fn groups_follow_sorted_labels_and_skip_noise() {
    let groups = group_by_label(&[1, -1, 0, 1, 0, 2, -1]);
    assert_eq!(groups, vec![(0, vec![2, 4]), (1, vec![0, 3]), (2, vec![5])]);
}

#[test]
fn all_noise_gives_no_groups() {
    assert!(group_by_label(&[-1, -1]).is_empty());
    assert!(group_by_label(&[]).is_empty());
}

#[test]
fn group_winner_has_highest_access_count_earliest_on_tie() {
    let entries = [("a", 3u32), ("b", 1), ("a", 5), ("b", 1), ("c", 0), ("a", 5)];
    assert_eq!(group_winners(&entries), vec![1, 2, 4]);
}

#[test]
fn deduplicate_results_keeps_one_per_group() {
    let entries = vec![
        ("group1", 0.95f32, 5u32),
        ("group1", 0.90, 10),
        ("group2", 0.85, 3),
        ("group1", 0.80, 1),
    ];
    let keys: Vec<(&str, u32)> = entries.iter().map(|e| (e.0, e.2)).collect();

    let deduped: Vec<&(&str, f32, u32)> = group_winners(&keys).into_iter().map(|i| &entries[i]).collect();
    assert_eq!(deduped.len(), 2);
    let g1 = deduped.iter().find(|e| e.0 == "group1").unwrap();
    assert_eq!(g1.2, 10);
}
