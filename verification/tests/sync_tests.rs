use component_index::index::ComponentIndex;
use component_index::key::{IndexKey, PlanarValue};

#[test]
fn key_of_u64_is_itself() {
    assert_eq!(17u64.key(), 17);
}

#[test]
fn planar_key_packs_both_fields() {
    let v = PlanarValue { x: 1, y: 1 };
    assert_eq!(v.key(), 0x1_0000_0001);
    let o = PlanarValue { x: 0, y: 0 };
    assert_eq!(o.key(), 0);
}

#[test]
fn synchronize_applies_removals_then_changes() {
    let mut idx = ComponentIndex::new();
    idx.insert(1, 100);
    idx.insert(2, 200);
    // entity 100 lost the attribute; entity 200 changed its value to key 3
    idx.synchronize::<u64>(&vec![100], &vec![(200, 3)]);
    assert_eq!(idx.get(1), Vec::<u64>::new());
    assert_eq!(idx.get(2), Vec::<u64>::new());
    assert_eq!(idx.get(3), vec![200]);
}

#[test]
fn synchronize_entity_removed_and_regained_in_one_pass() {
    let mut idx = ComponentIndex::new();
    idx.insert(1, 100);
    // the store reports the attribute removed and regained, with a new
    // value, within one batch: removals run first, so the fresh insert
    // survives
    idx.synchronize::<u64>(&vec![100], &vec![(100, 8)]);
    assert_eq!(idx.get(1), Vec::<u64>::new());
    assert_eq!(idx.get(8), vec![100]);
}

#[test]
fn synchronize_tolerates_duplicate_removal_reports() {
    let mut idx = ComponentIndex::new();
    idx.insert(1, 100);
    idx.synchronize::<u64>(&vec![100, 100, 999], &vec![]);
    assert_eq!(idx.get(1), Vec::<u64>::new());
}

#[test]
fn spawn_then_mutate_then_remove_scenario() {
    let mut idx = ComponentIndex::new();
    let e1: u64 = 100;
    let origin = PlanarValue { x: 0, y: 0 };
    let moved = PlanarValue { x: 1, y: 1 };

    // spawn e1 with value {0,0}; first synchronization indexes it
    idx.synchronize::<PlanarValue>(&vec![], &vec![(e1, origin)]);
    assert_eq!(idx.get(origin.key()), vec![e1]);

    // e1's value becomes {1,1}; before the next synchronization the index
    // still answers for the old value (documented staleness)
    assert_eq!(idx.get(origin.key()), vec![e1]);
    idx.synchronize::<PlanarValue>(&vec![], &vec![(e1, moved)]);
    assert_eq!(idx.get(origin.key()), Vec::<u64>::new());
    assert_eq!(idx.get(moved.key()), vec![e1]);

    // e1 is despawned; after synchronization nothing is indexed
    idx.synchronize::<PlanarValue>(&vec![e1], &vec![]);
    assert_eq!(idx.get(moved.key()), Vec::<u64>::new());
}

#[test]
fn duplicate_values_scenario() {
    let mut idx = ComponentIndex::new();
    let e1: u64 = 100;
    let e2: u64 = 200;
    let shared = PlanarValue { x: 2, y: 2 };

    idx.synchronize::<PlanarValue>(&vec![], &vec![(e1, shared), (e2, shared)]);
    let mut entities = idx.get(shared.key());
    entities.sort();
    assert_eq!(entities, vec![e1, e2]);

    idx.synchronize::<PlanarValue>(&vec![e1], &vec![]);
    assert_eq!(idx.get(shared.key()), vec![e2]);
}
