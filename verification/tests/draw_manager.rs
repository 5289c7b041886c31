use render_core::draw_manager::{DrawManager, LayerError};
use render_core::layer::LayerId;

#[test]
fn default_layers_draw_in_order() {
    let mut manager: DrawManager<u32, u8> = DrawManager::new();
    manager.rectangle_batch().create(7, LayerId::overlay_layer());
    manager.rectangle_batch().create(5, LayerId::background_layer());
    let plan = manager.draw(&vec![]);
    assert_eq!(plan.rectangles.unwrap().packed, vec![5, 7]);
    assert!(plan.images.is_none());
    let layers: Vec<LayerId> = plan.passes.iter().map(|p| p.layer).collect();
    assert_eq!(layers, vec![LayerId(0), LayerId(1), LayerId(2)]);
    assert_eq!(plan.passes[0].rectangles, Some((0, 1)));
    assert_eq!(plan.passes[1].rectangles, None);
    assert_eq!(plan.passes[2].rectangles, Some((1, 2)));
}

#[test]
fn adding_a_listed_layer_is_refused() {
    let mut manager: DrawManager<u32, u8> = DrawManager::new();
    assert_eq!(manager.add_layer(LayerId(1)), Err(LayerError::AlreadyExists(LayerId(1))));
}

#[test]
fn removing_an_unlisted_layer_is_refused() {
    let mut manager: DrawManager<u32, u8> = DrawManager::new();
    assert_eq!(manager.remove_layer(LayerId(9)), Err(LayerError::NotFound(LayerId(9))));
}

#[test]
fn added_layer_draws_last_and_removed_layer_not_at_all() {
    let mut manager: DrawManager<u32, u8> = DrawManager::new();
    assert_eq!(manager.add_layer(LayerId(-4)), Ok(()));
    assert_eq!(manager.remove_layer(LayerId(1)), Ok(()));
    manager.rectangle_batch().create(1, LayerId(1));
    manager.rectangle_batch().create(2, LayerId(-4));
    let plan = manager.draw(&vec![]);
    let layers: Vec<LayerId> = plan.passes.iter().map(|p| p.layer).collect();
    assert_eq!(layers, vec![LayerId(0), LayerId(2), LayerId(-4)]);
    assert_eq!(plan.rectangles.unwrap().packed, vec![2]);
    assert_eq!(plan.passes[2].rectangles, Some((0, 1)));
}

#[test]
fn add_then_remove_restores_the_layers() {
    let mut manager: DrawManager<u32, u8> = DrawManager::new();
    manager.add_layer(LayerId(7)).unwrap();
    manager.remove_layer(LayerId(7)).unwrap();
    let plan = manager.draw(&vec![]);
    let layers: Vec<LayerId> = plan.passes.iter().map(|p| p.layer).collect();
    assert_eq!(layers, vec![LayerId(0), LayerId(1), LayerId(2)]);
}

#[test]
fn images_are_drawn_with_the_frame() {
    let mut manager: DrawManager<u32, u8> = DrawManager::new();
    manager.image_batch().create(4);
    manager.image_batch().create(3);
    let plan = manager.draw(&vec![1, 0]);
    let images = plan.images.unwrap();
    assert_eq!(images.instance_count, 2);
    assert_eq!(images.update.unwrap().packed, vec![3, 4]);
}
