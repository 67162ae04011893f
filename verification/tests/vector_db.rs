use grand_pattern::vector_db::VectorDb;

#[test]
fn test_vector_db_retain() {
    let mut db: VectorDb<[f64; 2]> = VectorDb::new();
    db.insert(1, [1.0, 0.0]);
    db.insert(2, [0.0, 1.0]);
    db.retain(|(id, _)| *id == 1);
    assert_eq!(db.len(), 1);
}

#[test]
fn insert_appends_in_order() {
    let mut db: VectorDb<u32> = VectorDb::new();
    assert!(db.is_empty());
    db.insert(3, 30);
    db.insert(1, 10);
    db.insert(3, 31);
    assert_eq!(db.len(), 3);
    assert!(!db.is_empty());
    assert_eq!(db.entries(), &[(3, 30), (1, 10), (3, 31)]);
}

#[test]
fn retain_keeps_order_of_survivors() {
    let mut db: VectorDb<u32> = VectorDb::new();
    for i in 0..6u64 {
        db.insert(i, (i * 10) as u32);
    }
    db.retain(|(id, _)| id % 2 == 0);
    assert_eq!(db.entries(), &[(0, 0), (2, 20), (4, 40)]);
}

#[test]
fn retain_on_empty_store() {
    let mut db: VectorDb<u32> = VectorDb::new();
    db.retain(|_| true);
    assert!(db.is_empty());
}

#[test]
fn keep_last_keeps_most_recent_in_order() {
    let mut db: VectorDb<u32> = VectorDb::new();
    for i in 0..10u64 {
        db.insert(i, i as u32);
    }
    db.keep_last(3);
    assert_eq!(db.entries(), &[(7, 7), (8, 8), (9, 9)]);
}

#[test]
fn keep_last_leaves_small_store_alone() {
    let mut db: VectorDb<u32> = VectorDb::new();
    db.insert(1, 1);
    db.insert(2, 2);
    db.keep_last(2);
    assert_eq!(db.entries(), &[(1, 1), (2, 2)]);
    db.keep_last(5);
    assert_eq!(db.len(), 2);
    db.keep_last(0);
    assert!(db.is_empty());
}

#[test]
fn clear_empties_the_store() {
    let mut db: VectorDb<u32> = VectorDb::default();
    db.insert(1, 1);
    db.clear();
    assert_eq!(db.len(), 0);
}
