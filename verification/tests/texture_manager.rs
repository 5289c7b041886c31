use render_core::texture_manager::{AddOutcome, TextureManager};

#[test]
fn empty_texture_is_not_added() {
    let mut manager = TextureManager::new(64, 64, 1024);
    assert!(matches!(manager.add(0, 5), AddOutcome::Empty));
    assert!(matches!(manager.add(5, 0), AddOutcome::Empty));
}

#[test]
fn added_texture_has_its_size_and_border() {
    let mut manager = TextureManager::new(64, 64, 1024);
    match manager.add(10, 20) {
        AddOutcome::Placed { handle, origin_x, origin_y, grown_to } => {
            assert_eq!(grown_to, None);
            assert_eq!(manager.size(handle), Some((10, 20)));
            let (x0, y0, x1, y1) = manager.rect(handle).unwrap();
            assert_eq!((origin_x as i32, origin_y as i32), (x0, y0));
            assert!(x0 >= 1 && y0 >= 1 && x1 + 1 <= 64 && y1 + 1 <= 64);
            assert_eq!((x1 - x0, y1 - y0), (10, 20));
        }
        _ => panic!("the texture should fit"),
    }
}

#[test]
fn atlas_doubles_until_texture_fits() {
    let mut manager = TextureManager::new(8, 8, 1024);
    match manager.add(20, 10) {
        AddOutcome::Placed { handle, grown_to, .. } => {
            assert_eq!(grown_to, Some((32, 32)));
            assert_eq!(manager.atlas_size(), (32, 32));
            assert_eq!(manager.size(handle), Some((20, 10)));
        }
        _ => panic!("the texture should fit after growing"),
    }
}

#[test]
fn atlas_does_not_grow_past_the_limit() {
    let mut manager = TextureManager::new(8, 8, 16);
    match manager.add(20, 20) {
        AddOutcome::TooLarge { grown_to } => {
            assert_eq!(grown_to, Some((16, 16)));
            assert_eq!(manager.atlas_size(), (16, 16));
        }
        _ => panic!("the texture cannot fit"),
    }
}

#[test]
fn removed_texture_has_no_size_and_frees_its_place() {
    let mut manager = TextureManager::new(16, 16, 16);
    let handle = match manager.add(14, 14) {
        AddOutcome::Placed { handle, .. } => handle,
        _ => panic!("the texture should fit"),
    };
    manager.remove(handle);
    assert_eq!(manager.size(handle), None);
    assert_eq!(manager.rect(handle), None);
    // The freed place takes the next texture of the same size.
    assert!(matches!(manager.add(14, 14), AddOutcome::Placed { grown_to: None, .. }));
    manager.remove(handle);
}

#[test]
fn several_textures_get_distinct_handles() {
    let mut manager = TextureManager::new(64, 64, 64);
    let mut handles = vec![];
    for _ in 0..4 {
        match manager.add(8, 8) {
            AddOutcome::Placed { handle, .. } => handles.push(handle),
            _ => panic!("the textures should fit"),
        }
    }
    for i in 0..4 {
        for j in (i + 1)..4 {
            assert_ne!(handles[i], handles[j]);
        }
        assert_eq!(manager.size(handles[i]), Some((8, 8)));
    }
}

#[test]
fn small_texture_fits_a_fresh_atlas_without_growing() {
    let mut manager = TextureManager::new(64, 64, 1024);
    match manager.add(3, 2) {
        AddOutcome::Placed { handle, grown_to, .. } => {
            assert_eq!(grown_to, None);
            assert_eq!(manager.size(handle), Some((3, 2)));
            assert_eq!(manager.atlas_size(), (64, 64));
        }
        _ => panic!("the texture should fit"),
    }
}

#[test]
fn textures_and_their_borders_never_overlap() {
    let mut manager = TextureManager::new(16, 16, 256);
    let sizes = [(5, 7), (12, 3), (1, 1), (9, 9), (20, 4), (3, 30), (6, 6)];
    let mut rects = vec![];
    for &(w, h) in sizes.iter() {
        match manager.add(w, h) {
            AddOutcome::Placed { handle, .. } => rects.push(manager.rect(handle).unwrap()),
            _ => panic!("the texture should fit"),
        }
    }
    let (aw, ah) = manager.atlas_size();
    for (i, a) in rects.iter().enumerate() {
        assert!(a.0 >= 1 && a.1 >= 1 && a.2 + 1 <= aw as i32 && a.3 + 1 <= ah as i32);
        for b in rects.iter().skip(i + 1) {
            let apart = a.2 + 1 <= b.0 - 1 || b.2 + 1 <= a.0 - 1 || a.3 + 1 <= b.1 - 1 || b.3 + 1 <= a.1 - 1;
            assert!(apart, "{:?} and {:?} overlap", a, b);
        }
    }
}

#[test]
fn texture_that_fits_does_not_grow_the_atlas() {
    let mut manager = TextureManager::new(64, 64, 1024);
    for _ in 0..3 {
        match manager.add(8, 8) {
            AddOutcome::Placed { grown_to, .. } => assert_eq!(grown_to, None),
            _ => panic!("the texture should fit"),
        }
    }
    assert_eq!(manager.atlas_size(), (64, 64));
}
