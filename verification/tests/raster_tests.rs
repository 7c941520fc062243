use pathtrace::raster::{pixel_base, pixel_coords, raster_order};
use pathtrace::scene::{Scene, SceneSettings};
use pathtrace::aabb::{Aabb, Corner};

fn settings(width: i32, height: i32) -> SceneSettings {
    SceneSettings::new(width, height, 1, 50)
}

#[test]
fn raster_order_goes_top_row_first_left_to_right() {
    let s = settings(3, 2);
    let order = raster_order(&s);
    // Row j counts from the bottom, so the top row j == 1 is emitted first.
    assert_eq!(order, vec![(0, 1), (1, 1), (2, 1), (0, 0), (1, 0), (2, 0)]);
}

#[test]
fn pixel_coords_match_raster_order() {
    let s = settings(7, 5);
    let order = raster_order(&s);
    assert_eq!(order.len(), 35);
    for (k, c) in order.iter().enumerate() {
        assert_eq!(*c, pixel_coords(&s, k));
    }
}

#[test]
fn pixel_base_walks_three_bytes_per_pixel() {
    let s = settings(3, 2);
    assert_eq!(pixel_base(&s, 0, 1), 0);
    assert_eq!(pixel_base(&s, 1, 1), 3);
    assert_eq!(pixel_base(&s, 2, 1), 6);
    assert_eq!(pixel_base(&s, 0, 0), 9);
    assert_eq!(pixel_base(&s, 2, 0), 15);
    assert_eq!(s.buffer_len(), 18);
    assert_eq!(s.pixel_count(), 6);
}

#[test]
fn scene_couples_settings_with_its_hierarchy() {
    let boxes = vec![
        Aabb { min: Corner { x: 0, y: 0, z: 0 }, max: Corner { x: 2, y: 2, z: 2 } },
        Aabb { min: Corner { x: 5, y: 5, z: 5 }, max: Corner { x: 9, y: 9, z: 9 } },
    ];
    let s = Scene::new(&boxes, SceneSettings::new(500, 500, 1, 50));
    assert_eq!(s.settings.width, 500);
    assert_eq!(s.settings.spp, 1);
    assert_eq!(s.bvh.nodes.len(), 3);
}
