use shutri::audio::{concat_order, split_file_name, Split, SplitManifest, MIN_SPLIT_DURATION_MS};

fn manifest(durations: &[u64]) -> SplitManifest {
    let splits: Vec<Split> = durations
        .iter()
        .enumerate()
        .map(|(i, d)| Split {
            path: format!("split-{:03}.mp3", i + 1),
            duration_ms: *d,
        })
        .collect();
    SplitManifest::new("/tmp/project".to_string(), splits)
}

fn durations(m: &SplitManifest) -> Vec<u64> {
    m.splits.iter().map(|s| s.duration_ms).collect()
}

fn paths(m: &SplitManifest) -> Vec<String> {
    m.splits.iter().map(|s| s.path.clone()).collect()
}

#[test]
fn find_short_split_empty_and_long() {
    let m = manifest(&[]);
    assert!(m.find_short_split(MIN_SPLIT_DURATION_MS).is_none());
    let m = manifest(&[6000, 7000, 60000]);
    assert!(m.find_short_split(MIN_SPLIT_DURATION_MS).is_none());
}

#[test]
fn find_short_split_first_violation() {
    let m = manifest(&[8000, 5999, 1000]);
    assert_eq!(m.find_short_split(MIN_SPLIT_DURATION_MS), Some(1));
}

#[test]
fn plan_merge_first_takes_successor() {
    let m = manifest(&[2000, 3000, 10000]);
    let plan = m.plan_merge(6000).unwrap();
    assert_eq!(plan.victim, 0);
    assert_eq!(plan.partner, 1);
}

#[test]
fn plan_merge_last_takes_predecessor() {
    let m = manifest(&[10000, 9000, 2000]);
    let plan = m.plan_merge(6000).unwrap();
    assert_eq!(plan.victim, 2);
    assert_eq!(plan.partner, 1);
}

#[test]
fn plan_merge_middle_takes_shorter_neighbor() {
    // Successor is shorter.
    let m = manifest(&[10000, 2000, 7000]);
    let plan = m.plan_merge(6000).unwrap();
    assert_eq!(plan.victim, 1);
    assert_eq!(plan.partner, 2);
    // Predecessor is shorter.
    let m = manifest(&[7000, 2000, 10000]);
    let plan = m.plan_merge(6000).unwrap();
    assert_eq!(plan.victim, 1);
    assert_eq!(plan.partner, 0);
    // Tie resolves to the predecessor.
    let m = manifest(&[8000, 2000, 8000]);
    let plan = m.plan_merge(6000).unwrap();
    assert_eq!(plan.victim, 1);
    assert_eq!(plan.partner, 0);
}

#[test]
fn plan_merge_none_when_single_or_all_long() {
    let m = manifest(&[1000]);
    assert!(m.plan_merge(6000).is_none());
    let m = manifest(&[6000, 12000]);
    assert!(m.plan_merge(6000).is_none());
}

#[test]
fn apply_merge_conserves_count_and_duration() {
    let mut m = manifest(&[2000, 3000, 10000]);
    let before: u64 = durations(&m).iter().sum();
    let plan = m.plan_merge(6000).unwrap();
    m.apply_merge(plan);
    assert_eq!(m.splits.len(), 2);
    let after: u64 = durations(&m).iter().sum();
    assert_eq!(before, after);
    assert_eq!(durations(&m), vec![5000, 10000]);
    // The partner's slot survives under the partner's path.
    assert_eq!(paths(&m), vec!["split-002.mp3", "split-003.mp3"]);
}

#[test]
fn merge_scenario_cascades_to_single_split() {
    // [2s, 3s, 10s] with a 6s minimum: the first split merges with its
    // successor, the 5s result merges again, and the lone 15s split stays.
    let mut m = manifest(&[2000, 3000, 10000]);

    let plan = m.plan_merge(6000).unwrap();
    assert_eq!((plan.victim, plan.partner), (0, 1));
    m.apply_merge(plan);
    assert_eq!(durations(&m), vec![5000, 10000]);

    let plan = m.plan_merge(6000).unwrap();
    assert_eq!((plan.victim, plan.partner), (0, 1));
    m.apply_merge(plan);
    assert_eq!(durations(&m), vec![15000]);

    assert!(m.plan_merge(6000).is_none());
}

#[test]
fn merge_short_splits_scenario() {
    let mut m = manifest(&[2000, 3000, 10000]);
    m.merge_short_splits(6000);
    assert_eq!(durations(&m), vec![15000]);
    assert_eq!(paths(&m), vec!["split-003.mp3"]);
}

#[test]
fn merge_short_splits_no_op_cases() {
    // Empty manifest.
    let mut m = manifest(&[]);
    m.merge_short_splits(MIN_SPLIT_DURATION_MS);
    assert_eq!(m.splits.len(), 0);
    // A single under-length split is accepted unmodified.
    let mut m = manifest(&[1000]);
    m.merge_short_splits(MIN_SPLIT_DURATION_MS);
    assert_eq!(durations(&m), vec![1000]);
    // All splits already meet the minimum.
    let mut m = manifest(&[6000, 9000, 7000]);
    m.merge_short_splits(MIN_SPLIT_DURATION_MS);
    assert_eq!(durations(&m), vec![6000, 9000, 7000]);
}

#[test]
fn merge_short_splits_keeps_survivor_order() {
    let mut m = manifest(&[9000, 2000, 1000, 8000]);
    let original = paths(&m);
    m.merge_short_splits(6000);
    assert!(durations(&m).iter().all(|d| *d >= 6000) || m.splits.len() == 1);
    // Surviving paths appear in their original relative order.
    let survivors = paths(&m);
    let mut idx: usize = 0;
    for p in &survivors {
        let pos = original[idx..].iter().position(|o| o == p);
        assert!(pos.is_some(), "survivor {} out of order", p);
        idx += pos.unwrap() + 1;
    }
}

#[test]
fn concat_order_is_chronological() {
    let m = manifest(&[10000, 9000, 2000]);
    // Victim is the last split; its partner precedes it, so the partner's
    // audio comes first.
    let plan = m.plan_merge(6000).unwrap();
    assert_eq!(concat_order(&plan), (1, 2));
    // Victim is the first split; its own audio comes first.
    let m = manifest(&[2000, 3000, 10000]);
    let plan = m.plan_merge(6000).unwrap();
    assert_eq!(concat_order(&plan), (0, 1));
}

#[test]
fn split_file_name_is_zero_padded() {
    assert_eq!(split_file_name(1), "split-001.mp3");
    assert_eq!(split_file_name(42), "split-042.mp3");
    assert_eq!(split_file_name(999), "split-999.mp3");
    assert_eq!(split_file_name(1234), "split-1234.mp3");
}
