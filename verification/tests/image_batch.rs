use render_core::image_batch::ImageBatch;
use render_core::sort::stable_sort_by_key;

#[test]
fn empty_image_batch_draws_nothing() {
    let mut batch: ImageBatch<u8> = ImageBatch::new();
    assert!(batch.draw(&vec![]).is_none());
}

#[test]
fn images_are_written_sorted_by_depth() {
    let mut batch: ImageBatch<char> = ImageBatch::new();
    batch.create('a');
    batch.create('b');
    batch.create('c');
    let frame = batch.draw(&vec![2, 0, 1]).unwrap();
    assert_eq!(frame.instance_count, 3);
    let update = frame.update.unwrap();
    assert_eq!(update.packed, vec!['b', 'c', 'a']);
    assert_eq!(update.new_capacity, None);
    // Unchanged batch: draw again without a buffer update.
    let frame = batch.draw(&vec![2, 0, 1]).unwrap();
    assert!(frame.update.is_none());
    assert_eq!(frame.instance_count, 3);
}

#[test]
fn image_remove_moves_last_into_place() {
    let mut batch: ImageBatch<char> = ImageBatch::new();
    let a = batch.create('a');
    batch.create('b');
    let c = batch.create('c');
    batch.remove(a);
    assert_eq!(batch.instances(), &vec!['c', 'b']);
    batch.modify(c, |x| *x = 'z');
    assert_eq!(batch.instances(), &vec!['z', 'b']);
    batch.remove(a);
    assert_eq!(batch.instances().len(), 2);
}

#[test]
fn stable_sort_keeps_order_of_equal_keys() {
    let items = vec![1, 2, 3, 4, 5];
    let keys = vec![3, 1, 3, 1, 0];
    assert_eq!(stable_sort_by_key(&items, &keys), vec![5, 2, 4, 1, 3]);
}

#[test]
fn stable_sort_of_equal_keys_is_identity() {
    let items = vec![9, 8, 7];
    assert_eq!(stable_sort_by_key(&items, &vec![0, 0, 0]), vec![9, 8, 7]);
}

#[test]
fn stable_sort_of_nothing() {
    let items: Vec<u8> = vec![];
    assert_eq!(stable_sort_by_key(&items, &vec![]), Vec::<u8>::new());
}
