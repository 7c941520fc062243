use pathtrace::aabb::{enclosing_box, surrounding_box, Aabb, Corner};

fn corner(x: u64, y: u64, z: u64) -> Corner {
    Corner { x, y, z }
}

fn boxed(min: (u64, u64, u64), max: (u64, u64, u64)) -> Aabb {
    Aabb::new(corner(min.0, min.1, min.2), corner(max.0, max.1, max.2))
}

fn contains(outer: &Aabb, inner: &Aabb) -> bool {
    outer.min.x <= inner.min.x
        && outer.min.y <= inner.min.y
        && outer.min.z <= inner.min.z
        && inner.max.x <= outer.max.x
        && inner.max.y <= outer.max.y
        && inner.max.z <= outer.max.z
}

#[test]
fn corner_axis_reads_each_coordinate() {
    let c = corner(7, 11, 13);
    assert_eq!(c.axis(0), 7);
    assert_eq!(c.axis(1), 11);
    assert_eq!(c.axis(2), 13);
}

#[test]
fn surrounding_box_is_componentwise_min_and_max() {
    let a = boxed((0, 10, 5), (4, 20, 9));
    let b = boxed((2, 2, 7), (8, 12, 8));
    let u = surrounding_box(a, b);
    assert_eq!(u, boxed((0, 2, 5), (8, 20, 9)));
}

#[test]
fn surrounding_box_contains_both_inputs() {
    let a = boxed((3, 0, 0), (5, 1, 9));
    let b = boxed((1, 4, 2), (2, 9, 3));
    let u = surrounding_box(a, b);
    assert!(contains(&u, &a));
    assert!(contains(&u, &b));
}

#[test]
fn surrounding_box_is_minimal() {
    let a = boxed((3, 0, 0), (5, 1, 9));
    let b = boxed((1, 4, 2), (2, 9, 3));
    let u = surrounding_box(a, b);
    // Any box containing both inputs contains the union; in particular no
    // strictly tighter box than the union can contain both.
    let c = boxed((1, 0, 0), (5, 9, 9));
    assert!(contains(&c, &a) && contains(&c, &b));
    assert!(contains(&c, &u));
    // Shrinking the union on any face loses one of the inputs.
    let mut shrunk = u;
    shrunk.min.x += 1;
    assert!(!(contains(&shrunk, &a) && contains(&shrunk, &b)));
    let mut shrunk = u;
    shrunk.max.y -= 1;
    assert!(!(contains(&shrunk, &a) && contains(&shrunk, &b)));
}

#[test]
fn enclosing_box_of_empty_collection_is_none() {
    let boxes: Vec<Aabb> = Vec::new();
    assert!(enclosing_box(&boxes).is_none());
}

#[test]
fn enclosing_box_contains_every_input() {
    let boxes = vec![
        boxed((4, 4, 4), (6, 6, 6)),
        boxed((0, 5, 5), (1, 6, 9)),
        boxed((2, 0, 7), (9, 1, 8)),
    ];
    let e = enclosing_box(&boxes).unwrap();
    for b in &boxes {
        assert!(contains(&e, b));
    }
    assert_eq!(e, boxed((0, 0, 4), (9, 6, 9)));
}
