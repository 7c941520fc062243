use pathtrace::aabb::{Aabb, Corner};
use pathtrace::bvh::BvhTree;
use pathtrace::hit::closest_hit;

// A fixed-seed generator so the scene and the rays are reproducible.
fn lcg(state: &mut u64) -> u64 {
    *state = state
        .wrapping_mul(6364136223846793005)
        .wrapping_add(1442695040888963407);
    *state >> 33
}

fn rand_unit(state: &mut u64) -> f32 {
    (lcg(state) as f32) / (2147483648.0f32)
}

fn rand_range(state: &mut u64, lo: f32, hi: f32) -> f32 {
    lo + (hi - lo) * rand_unit(state)
}

// Order-encode a finite float: the encoding is strictly monotone, so
// comparing keys compares the floats.
fn key(f: f32) -> u64 {
    let b = f.to_bits();
    let k = if b & 0x8000_0000 != 0 { !b } else { b | 0x8000_0000 };
    k as u64
}

fn coord_key(f: f32) -> u64 {
    key(f)
}

fn sphere_box(center: [f32; 3], radius: f32) -> ([f32; 3], [f32; 3]) {
    (
        [center[0] - radius, center[1] - radius, center[2] - radius],
        [center[0] + radius, center[1] + radius, center[2] + radius],
    )
}

fn ordinal_box(min: [f32; 3], max: [f32; 3]) -> Aabb {
    Aabb {
        min: Corner { x: coord_key(min[0]), y: coord_key(min[1]), z: coord_key(min[2]) },
        max: Corner { x: coord_key(max[0]), y: coord_key(max[1]), z: coord_key(max[2]) },
    }
}

// The nearest accepted root of the ray/sphere quadratic, the nearer root
// first, exactly as the renderer's sphere intersection accepts them.
fn sphere_hit(
    center: [f32; 3],
    radius: f32,
    origin: [f32; 3],
    dir: [f32; 3],
    t_min: f32,
    t_max: f32,
) -> Option<f32> {
    let oc = [origin[0] - center[0], origin[1] - center[1], origin[2] - center[2]];
    let a = dir[0] * dir[0] + dir[1] * dir[1] + dir[2] * dir[2];
    let b = oc[0] * dir[0] + oc[1] * dir[1] + oc[2] * dir[2];
    let c = oc[0] * oc[0] + oc[1] * oc[1] + oc[2] * oc[2] - radius * radius;
    let disc = b * b - a * c;
    if disc > 0.0 {
        let t = (-b - disc.sqrt()) / a;
        if t < t_max && t > t_min {
            return Some(t);
        }
        let t = (-b + disc.sqrt()) / a;
        if t < t_max && t > t_min {
            return Some(t);
        }
    }
    None
}

// The textbook slab test over IEEE-754 arithmetic.
fn slab_hit(
    bmin: [f32; 3],
    bmax: [f32; 3],
    origin: [f32; 3],
    dir: [f32; 3],
    t_min: f32,
    t_max: f32,
) -> bool {
    let mut lo = t_min;
    let mut hi = t_max;
    for a in 0..3 {
        let inv = 1.0f32 / dir[a];
        let mut t0 = (bmin[a] - origin[a]) * inv;
        let mut t1 = (bmax[a] - origin[a]) * inv;
        if inv < 0.0 {
            std::mem::swap(&mut t0, &mut t1);
        }
        lo = if t0 > lo { t0 } else { lo };
        hi = if t1 < hi { t1 } else { hi };
        if hi <= lo {
            return false;
        }
    }
    true
}

fn random_scene(state: &mut u64, n: usize) -> (Vec<[f32; 3]>, Vec<f32>) {
    let mut centers = Vec::new();
    let mut radii = Vec::new();
    for _ in 0..n {
        centers.push([
            rand_range(state, -50.0, 50.0),
            rand_range(state, -50.0, 50.0),
            rand_range(state, -50.0, 50.0),
        ]);
        radii.push(rand_range(state, 0.5, 3.0));
    }
    (centers, radii)
}

fn random_ray(state: &mut u64) -> ([f32; 3], [f32; 3]) {
    let origin = [
        rand_range(state, -20.0, 20.0),
        rand_range(state, -20.0, 20.0),
        rand_range(state, -20.0, 20.0),
    ];
    let mut dir = [0.0f32; 3];
    for a in 0..3 {
        let mut d = rand_range(state, -1.0, 1.0);
        if d.abs() < 1.0e-4 {
            d = 1.0e-4;
        }
        dir[a] = d;
    }
    (origin, dir)
}

// Per-node float boxes: a leaf gets its sphere's box, an internal node the
// union of its children's; children sit below their parents, so one pass
// in index order fills them all.
fn node_float_boxes(
    tree: &BvhTree,
    centers: &[[f32; 3]],
    radii: &[f32],
) -> Vec<([f32; 3], [f32; 3])> {
    let mut out: Vec<([f32; 3], [f32; 3])> = Vec::new();
    for node in &tree.nodes {
        match node.prim {
            Some(p) => out.push(sphere_box(centers[p], radii[p])),
            None => {
                let (lmin, lmax) = out[node.left.unwrap()];
                let (rmin, rmax) = out[node.right.unwrap()];
                out.push((
                    [
                        lmin[0].min(rmin[0]),
                        lmin[1].min(rmin[1]),
                        lmin[2].min(rmin[2]),
                    ],
                    [
                        lmax[0].max(rmax[0]),
                        lmax[1].max(rmax[1]),
                        lmax[2].max(rmax[2]),
                    ],
                ));
            }
        }
    }
    out
}

#[test]
fn traversal_equals_linear_scan_on_random_scene() {
    let mut state = 0x5eed_5eed_5eed_5eedu64;
    let n = 500usize;
    let (centers, radii) = random_scene(&mut state, n);

    let mut boxes = Vec::new();
    for p in 0..n {
        let (bmin, bmax) = sphere_box(centers[p], radii[p]);
        boxes.push(ordinal_box(bmin, bmax));
    }
    let tree = BvhTree::new(&boxes);
    let node_boxes = node_float_boxes(&tree, &centers, &radii);

    let t_min = 0.001f32;
    let t_max = 1.0e9f32;
    let mut hits = 0usize;
    for _ in 0..1000 {
        let (origin, dir) = random_ray(&mut state);

        let mut box_hits = Vec::new();
        for nb in &node_boxes {
            box_hits.push(slab_hit(nb.0, nb.1, origin, dir, t_min, t_max));
        }
        let mut prim_hits: Vec<Option<u64>> = Vec::new();
        for p in 0..n {
            prim_hits
                .push(sphere_hit(centers[p], radii[p], origin, dir, t_min, t_max).map(key));
        }

        let fast = tree.hit(&box_hits, &prim_hits);
        let slow = closest_hit(&prim_hits);
        assert_eq!(fast, slow);
        if fast.is_some() {
            hits += 1;
        }
    }
    // The scene is dense enough that a fair share of rays hit something.
    assert!(hits > 100, "only {} of 1000 rays hit", hits);
}

#[test]
fn driven_traversal_matches_recursive_traversal() {
    let mut state = 0xabcd_1234_5678_9a01u64;
    let n = 120usize;
    let (centers, radii) = random_scene(&mut state, n);

    let mut boxes = Vec::new();
    for p in 0..n {
        let (bmin, bmax) = sphere_box(centers[p], radii[p]);
        boxes.push(ordinal_box(bmin, bmax));
    }
    let tree = BvhTree::new(&boxes);
    let node_boxes = node_float_boxes(&tree, &centers, &radii);

    let t_min = 0.001f32;
    let t_max = 1.0e9f32;
    for _ in 0..200 {
        let (origin, dir) = random_ray(&mut state);

        let mut box_hits = Vec::new();
        for nb in &node_boxes {
            box_hits.push(slab_hit(nb.0, nb.1, origin, dir, t_min, t_max));
        }
        let mut prim_hits: Vec<Option<u64>> = Vec::new();
        for p in 0..n {
            prim_hits
                .push(sphere_hit(centers[p], radii[p], origin, dir, t_min, t_max).map(key));
        }

        // Drive the incremental traversal with honest outcomes; primitives
        // are only ever tested when a leaf's box accepted the ray.
        let mut tested = 0usize;
        let mut tr = tree.begin_hit();
        let mut steps = 0usize;
        while let Some(node) = tr.next_node() {
            steps += 1;
            assert!(steps <= tree.nodes.len());
            let nb = node_boxes[node];
            let accepted = slab_hit(nb.0, nb.1, origin, dir, t_min, t_max);
            if let Some(p) = tr.enter_node(&tree, node, accepted) {
                tested += 1;
                if let Some(t) = sphere_hit(centers[p], radii[p], origin, dir, t_min, t_max) {
                    tr.offer(p, key(t));
                }
            }
        }
        assert!(tested <= n);
        assert_eq!(tr.best, tree.hit(&box_hits, &prim_hits));
        assert_eq!(tr.best, tree.hit_driven(&box_hits, &prim_hits));
        assert_eq!(tr.best, closest_hit(&prim_hits));
    }
}

#[test]
fn a_ray_missing_everything_finds_nothing() {
    let centers = vec![[0.0f32, 0.0, 0.0], [5.0, 0.0, 0.0]];
    let radii = vec![1.0f32, 1.0];
    let mut boxes = Vec::new();
    for p in 0..2 {
        let (bmin, bmax) = sphere_box(centers[p], radii[p]);
        boxes.push(ordinal_box(bmin, bmax));
    }
    let tree = BvhTree::new(&boxes);
    let node_boxes = node_float_boxes(&tree, &centers, &radii);

    // Aimed away from both spheres.
    let origin = [0.0f32, 10.0, 0.0];
    let dir = [0.0001f32, 1.0, 0.0001];
    let t_min = 0.001f32;
    let t_max = 1.0e9f32;
    let box_hits: Vec<bool> = node_boxes
        .iter()
        .map(|nb| slab_hit(nb.0, nb.1, origin, dir, t_min, t_max))
        .collect();
    let prim_hits: Vec<Option<u64>> = (0..2)
        .map(|p| sphere_hit(centers[p], radii[p], origin, dir, t_min, t_max).map(key))
        .collect();
    assert_eq!(tree.hit(&box_hits, &prim_hits), None);
    assert_eq!(closest_hit(&prim_hits), None);
}

#[test]
fn closest_hit_keeps_the_first_of_equal_distances() {
    let hits = vec![None, Some(40u64), Some(25), None, Some(25)];
    assert_eq!(closest_hit(&hits), Some((2usize, 25u64)));
    let none: Vec<Option<u64>> = vec![None, None];
    assert_eq!(closest_hit(&none), None);
    let empty: Vec<Option<u64>> = Vec::new();
    assert_eq!(closest_hit(&empty), None);
}
