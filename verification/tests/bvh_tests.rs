use pathtrace::aabb::{surrounding_box, Aabb, Corner};
use pathtrace::bvh::{sort_by_box_min, BvhTree};

fn cube(min: (u64, u64, u64), side: u64) -> Aabb {
    Aabb {
        min: Corner { x: min.0, y: min.1, z: min.2 },
        max: Corner { x: min.0 + side, y: min.1 + side, z: min.2 + side },
    }
}

#[test]
fn sort_orders_ids_by_min_coordinate() {
    let boxes = vec![
        cube((30, 1, 2), 1),
        cube((10, 5, 0), 1),
        cube((20, 0, 9), 1),
        cube((0, 7, 4), 1),
    ];
    let mut ids = vec![0usize, 1, 2, 3];
    sort_by_box_min(&mut ids, &boxes, 0);
    assert_eq!(ids, vec![3, 1, 2, 0]);
}

#[test]
fn sort_is_stable_on_equal_keys() {
    // All boxes share the same x-minimum, so sorting on axis 0 must keep
    // the ids in the order they came in.
    let boxes = vec![cube((5, 9, 0), 1), cube((5, 2, 3), 1), cube((5, 4, 1), 1)];
    let mut ids = vec![2usize, 0, 1];
    sort_by_box_min(&mut ids, &boxes, 0);
    assert_eq!(ids, vec![2, 0, 1]);
    // On axis 1 the keys differ and the order follows them.
    let mut ids = vec![2usize, 0, 1];
    sort_by_box_min(&mut ids, &boxes, 1);
    assert_eq!(ids, vec![1, 2, 0]);
}

#[test]
fn build_makes_one_leaf_per_primitive() {
    let n = 23usize;
    let mut boxes = Vec::new();
    for p in 0..n {
        boxes.push(cube((p as u64 * 3, (p as u64 * 7) % 11, (p as u64 * 5) % 13), 2));
    }
    let tree = BvhTree::new(&boxes);
    assert_eq!(tree.nodes.len(), 2 * n - 1);
    assert_eq!(tree.root, tree.nodes.len() - 1);
    let mut seen = vec![0usize; n];
    for node in &tree.nodes {
        match node.prim {
            Some(p) => {
                assert!(p < n);
                assert!(node.left.is_none() && node.right.is_none());
                assert_eq!(node.bounds, boxes[p]);
                seen[p] += 1;
            }
            None => {
                assert!(node.left.is_some() && node.right.is_some());
            }
        }
    }
    for p in 0..n {
        assert_eq!(seen[p], 1);
    }
}

#[test]
fn build_links_children_below_parents_with_union_boxes() {
    let n = 17usize;
    let mut boxes = Vec::new();
    for p in 0..n {
        boxes.push(cube(((p as u64 * 13) % 29, p as u64, (p as u64 * 11) % 19), 1));
    }
    let tree = BvhTree::new(&boxes);
    for (i, node) in tree.nodes.iter().enumerate() {
        if node.prim.is_none() {
            let l = node.left.unwrap();
            let r = node.right.unwrap();
            assert!(l < i && r < i);
            let union = surrounding_box(tree.nodes[l].bounds, tree.nodes[r].bounds);
            assert_eq!(node.bounds, union);
        }
    }
}

#[test]
fn build_of_single_primitive_is_one_leaf() {
    let boxes = vec![cube((1, 2, 3), 4)];
    let tree = BvhTree::new(&boxes);
    assert_eq!(tree.nodes.len(), 1);
    assert_eq!(tree.root, 0);
    assert_eq!(tree.nodes[0].prim, Some(0));
    assert_eq!(tree.bounding_box(), boxes[0]);
}

#[test]
fn bounding_box_encloses_every_primitive() {
    let n = 9usize;
    let mut boxes = Vec::new();
    for p in 0..n {
        boxes.push(cube((p as u64 * 2, 50 - p as u64, p as u64), 3));
    }
    let tree = BvhTree::new(&boxes);
    let root = tree.bounding_box();
    for b in &boxes {
        assert!(root.min.x <= b.min.x && b.max.x <= root.max.x);
        assert!(root.min.y <= b.min.y && b.max.y <= root.max.y);
        assert!(root.min.z <= b.min.z && b.max.z <= root.max.z);
    }
}
