use component_index::index::ComponentIndex;

#[test]
fn round_trip() {
    let mut idx = ComponentIndex::new();
    idx.insert(5, 100);
    assert_eq!(idx.get(5), vec![100]);
}

#[test]
fn lookup_miss_is_empty() {
    let idx = ComponentIndex::new();
    assert_eq!(idx.get(42), Vec::<u64>::new());
}

#[test]
fn removal_clears_both_sides() {
    let mut idx = ComponentIndex::new();
    idx.insert(5, 100);
    idx.remove(100);
    assert_eq!(idx.get(5), Vec::<u64>::new());
    // inserting again under another key works: the reverse entry is gone
    idx.insert(6, 100);
    assert_eq!(idx.get(6), vec![100]);
}

#[test]
fn removal_is_idempotent() {
    let mut idx = ComponentIndex::new();
    idx.insert(5, 100);
    idx.remove(100);
    idx.remove(100);
    assert_eq!(idx.get(5), Vec::<u64>::new());
}

#[test]
fn redundant_removal_of_unknown_entity() {
    let mut idx = ComponentIndex::new();
    idx.insert(5, 100);
    idx.remove(999);
    assert_eq!(idx.get(5), vec![100]);
}

#[test]
fn update_moves_bucket() {
    let mut idx = ComponentIndex::new();
    idx.insert(1, 100);
    idx.update(100, 2);
    assert_eq!(idx.get(1), Vec::<u64>::new());
    assert_eq!(idx.get(2), vec![100]);
}

#[test]
fn update_of_unindexed_entity_inserts() {
    let mut idx = ComponentIndex::new();
    idx.update(100, 9);
    assert_eq!(idx.get(9), vec![100]);
}

#[test]
fn update_to_same_key_keeps_single_entry() {
    let mut idx = ComponentIndex::new();
    idx.insert(3, 100);
    idx.update(100, 3);
    assert_eq!(idx.get(3), vec![100]);
}

#[test]
fn shared_key_multiplicity() {
    let mut idx = ComponentIndex::new();
    idx.insert(7, 100);
    idx.insert(7, 200);
    idx.insert(7, 300);
    let mut entities = idx.get(7);
    entities.sort();
    assert_eq!(entities, vec![100, 200, 300]);
}

#[test]
fn removing_one_leaves_the_others() {
    let mut idx = ComponentIndex::new();
    idx.insert(7, 100);
    idx.insert(7, 200);
    idx.remove(100);
    assert_eq!(idx.get(7), vec![200]);
}
