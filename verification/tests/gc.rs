use grand_pattern::gc::{merge_groups, merged_store};
use grand_pattern::vector_db::VectorDb;

fn closeness(points: &[f64], threshold: f64) -> Vec<Vec<bool>> {
    points
        .iter()
        .map(|a| points.iter().map(|b| (a - b).abs() < threshold).collect())
        .collect()
}

#[test]
fn nearby_entries_share_a_group() {
    // Entries at 1.0 and 1.01 lie within 0.1 of each other; 5.0 does not.
    let close = closeness(&[1.0, 1.01, 5.0], 0.1);
    assert_eq!(merge_groups(&close), vec![vec![0, 1], vec![2]]);
}

#[test]
fn greedy_grouping_follows_the_leader_only() {
    // 0 is close to 1, 1 is close to 2, but 0 is not close to 2.
    let close = vec![
        vec![true, true, false],
        vec![true, true, true],
        vec![false, true, true],
    ];
    assert_eq!(merge_groups(&close), vec![vec![0, 1], vec![2]]);
}

#[test]
fn taken_entries_are_not_taken_again() {
    let close = vec![
        vec![true, false, true, false],
        vec![false, true, true, true],
        vec![true, true, true, false],
        vec![false, true, false, true],
    ];
    assert_eq!(merge_groups(&close), vec![vec![0, 2], vec![1, 3]]);
}

#[test]
fn no_close_pairs_keeps_every_entry_alone() {
    let close = closeness(&[0.0, 1.0, 2.0, 3.0], 0.01);
    assert_eq!(merge_groups(&close), vec![vec![0], vec![1], vec![2], vec![3]]);
}

#[test]
fn empty_store_has_no_groups() {
    let close: Vec<Vec<bool>> = Vec::new();
    assert!(merge_groups(&close).is_empty());
}

#[test]
fn merged_store_keeps_leader_ids() {
    let mut db: VectorDb<u32> = VectorDb::new();
    db.insert(10, 1);
    db.insert(11, 2);
    db.insert(12, 3);
    let groups = vec![vec![0, 2], vec![1]];
    let merged = merged_store(&db, &groups, vec![100, 200]);
    assert_eq!(merged.entries(), &[(10, 100), (11, 200)]);
}

#[test]
fn collection_keeps_ids_in_order() {
    // Merge, decay and prune: the surviving ids are a subsequence of the old ones.
    let mut db: VectorDb<f64> = VectorDb::new();
    for (id, x) in [(0u64, 0.0), (1, 0.05), (2, 3.0), (3, 3.01), (4, 9.0)] {
        db.insert(id, x);
    }
    let points: Vec<f64> = db.entries().iter().map(|e| e.1).collect();
    let groups = merge_groups(&closeness(&points, 0.1));
    let means: Vec<f64> = groups
        .iter()
        .map(|g| g.iter().map(|&i| points[i]).sum::<f64>() / g.len() as f64)
        .collect();
    let mut merged = merged_store(&db, &groups, means);
    let ids: Vec<u64> = merged.entries().iter().map(|e| e.0).collect();
    assert_eq!(ids, vec![0, 2, 4]);
    merged.retain(|(_, v)| *v < 5.0);
    merged.keep_last(1);
    assert_eq!(merged.entries().iter().map(|e| e.0).collect::<Vec<_>>(), vec![2]);
}
