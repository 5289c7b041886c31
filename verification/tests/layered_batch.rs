use render_core::batch::{LayeredBatch, INITIAL_INSTANCE_BUFFER_CAPACITY};
use render_core::layer::LayerId;

fn layers(ids: &[i32]) -> Vec<LayerId> {
    ids.iter().map(|&i| LayerId(i)).collect()
}

#[test]
fn new_batch_has_nothing_to_pack() {
    let mut batch: LayeredBatch<u32> = LayeredBatch::new();
    assert_eq!(batch.instance_count(), 0);
    assert!(batch.update_buffer(&layers(&[0, 1, 2])).is_none());
    assert_eq!(batch.draw_layer(&LayerId(0)), None);
}

#[test]
fn packs_layers_in_the_listed_order() {
    let mut batch: LayeredBatch<u32> = LayeredBatch::new();
    batch.create(10, LayerId(1));
    batch.create(20, LayerId(0));
    batch.create(11, LayerId(1));
    batch.create(30, LayerId(2));
    let update = batch.update_buffer(&layers(&[0, 1, 2])).unwrap();
    assert_eq!(update.packed, vec![20, 10, 11, 30]);
    assert_eq!(update.new_capacity, None);
    assert_eq!(batch.draw_layer(&LayerId(0)), Some((0, 1)));
    assert_eq!(batch.draw_layer(&LayerId(1)), Some((1, 3)));
    assert_eq!(batch.draw_layer(&LayerId(2)), Some((3, 4)));
    // Nothing changed since: nothing to write.
    assert!(batch.update_buffer(&layers(&[0, 1, 2])).is_none());
}

#[test]
fn unlisted_layers_are_not_packed() {
    let mut batch: LayeredBatch<u32> = LayeredBatch::new();
    batch.create(1, LayerId(5));
    batch.create(2, LayerId(0));
    let update = batch.update_buffer(&layers(&[0])).unwrap();
    assert_eq!(update.packed, vec![2]);
    assert_eq!(batch.draw_layer(&LayerId(5)), None);
}

#[test]
fn remove_moves_the_last_instance_into_the_gap() {
    let mut batch: LayeredBatch<u32> = LayeredBatch::new();
    let a = batch.create(1, LayerId(0));
    let _b = batch.create(2, LayerId(0));
    let c = batch.create(3, LayerId(0));
    batch.remove(a);
    assert_eq!(batch.instance_count(), 2);
    let update = batch.update_buffer(&layers(&[0])).unwrap();
    assert_eq!(update.packed, vec![3, 2]);
    // The moved instance keeps its handle.
    batch.modify(c, |x| *x = 33);
    let update = batch.update_buffer(&layers(&[0])).unwrap();
    assert_eq!(update.packed, vec![33, 2]);
}

#[test]
fn removed_handle_finds_nothing() {
    let mut batch: LayeredBatch<u32> = LayeredBatch::new();
    let a = batch.create(1, LayerId(0));
    batch.update_buffer(&layers(&[0]));
    batch.remove(a);
    batch.remove(a);
    assert_eq!(batch.instance_count(), 0);
    batch.update_buffer(&layers(&[0]));
    let mut called = false;
    batch.modify(a, |_| called = true);
    assert!(!called);
    // An emptied layer keeps the range it had before.
    assert_eq!(batch.draw_layer(&LayerId(0)), Some((0, 1)));
}

#[test]
fn modify_changes_only_its_instance() {
    let mut batch: LayeredBatch<(u32, u32)> = LayeredBatch::new();
    let a = batch.create((1, 1), LayerId(0));
    let _b = batch.create((2, 2), LayerId(1));
    batch.modify(a, |x| x.1 = 9);
    let update = batch.update_buffer(&layers(&[0, 1])).unwrap();
    assert_eq!(update.packed, vec![(1, 9), (2, 2)]);
}

#[test]
fn create_then_remove_gives_back_the_previous_packing() {
    let mut batch: LayeredBatch<u32> = LayeredBatch::new();
    batch.create(1, LayerId(0));
    batch.create(2, LayerId(0));
    let before = batch.update_buffer(&layers(&[0])).unwrap().packed;
    let h = batch.create(3, LayerId(0));
    batch.remove(h);
    let after = batch.update_buffer(&layers(&[0])).unwrap().packed;
    assert_eq!(before, after);
}

#[test]
fn buffer_doubles_when_outgrown() {
    let mut batch: LayeredBatch<u32> = LayeredBatch::new();
    for i in 0..(INITIAL_INSTANCE_BUFFER_CAPACITY as u32 + 1) {
        batch.create(i, LayerId(0));
    }
    let update = batch.update_buffer(&layers(&[0])).unwrap();
    assert_eq!(update.new_capacity, Some(2 * INITIAL_INSTANCE_BUFFER_CAPACITY));
    assert_eq!(update.packed.len(), INITIAL_INSTANCE_BUFFER_CAPACITY + 1);
    batch.create(100, LayerId(0));
    let update = batch.update_buffer(&layers(&[0])).unwrap();
    assert_eq!(update.new_capacity, None);
}

#[test]
fn exactly_full_buffer_does_not_grow() {
    let mut batch: LayeredBatch<u32> = LayeredBatch::new();
    for i in 0..(INITIAL_INSTANCE_BUFFER_CAPACITY as u32) {
        batch.create(i, LayerId(0));
    }
    let update = batch.update_buffer(&layers(&[0])).unwrap();
    assert_eq!(update.new_capacity, None);
}

#[test]
fn buffer_doubles_once_per_update() {
    let mut batch: LayeredBatch<u32> = LayeredBatch::new();
    for i in 0..(2 * INITIAL_INSTANCE_BUFFER_CAPACITY as u32 + 1) {
        batch.create(i, LayerId(0));
    }
    let update = batch.update_buffer(&layers(&[0])).unwrap();
    assert_eq!(update.new_capacity, Some(2 * INITIAL_INSTANCE_BUFFER_CAPACITY));
}

#[test]
fn unlisted_layer_keeps_its_range() {
    let mut batch: LayeredBatch<u32> = LayeredBatch::new();
    batch.create(1, LayerId(0));
    batch.create(2, LayerId(1));
    batch.update_buffer(&layers(&[0, 1]));
    assert_eq!(batch.draw_layer(&LayerId(1)), Some((1, 2)));
    batch.create(3, LayerId(0));
    batch.update_buffer(&layers(&[0]));
    assert_eq!(batch.draw_layer(&LayerId(0)), Some((0, 2)));
    assert_eq!(batch.draw_layer(&LayerId(1)), Some((1, 2)));
}
