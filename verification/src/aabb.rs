//! Axis-aligned bounding boxes over order-encoded coordinates.
//!
//! A coordinate is a `u64` key whose ordering agrees with the ordering of
//! the geometric coordinate it stands for; the box logic only ever compares
//! coordinates, so everything proved here transfers to the geometry.

use vstd::prelude::*;

verus! {

/// One corner of an axis-aligned box: a coordinate per axis.
#[derive(Clone, Copy, PartialEq, Eq, Structural, Debug)]
pub struct Corner {
    pub x: u64,
    pub y: u64,
    pub z: u64,
}

impl Corner {
    /// The coordinate on axis `a` (0 = x, 1 = y, 2 = z).
    pub open spec fn axis_spec(self, a: int) -> u64 {
        if a == 0 {
            self.x
        } else if a == 1 {
            self.y
        } else {
            self.z
        }
    }

    /// The coordinate on axis `a` (0 = x, 1 = y, 2 = z).
    pub fn axis(&self, a: usize) -> (c: u64)
        requires
            a < 3,
        ensures
            c == self.axis_spec(a as int),
    {
        if a == 0 {
            self.x
        } else if a == 1 {
            self.y
        } else {
            self.z
        }
    }
}

/// An axis-aligned bounding box: a min and a max corner.
#[derive(Clone, Copy, PartialEq, Eq, Structural, Debug)]
pub struct Aabb {
    pub min: Corner,
    pub max: Corner,
}

/// The smaller of two coordinates.
pub open spec fn coord_min(a: u64, b: u64) -> u64 {
    if a < b {
        a
    } else {
        b
    }
}

/// The larger of two coordinates.
pub open spec fn coord_max(a: u64, b: u64) -> u64 {
    if a > b {
        a
    } else {
        b
    }
}

/// The componentwise union of two boxes: min of the mins, max of the maxes.
pub open spec fn union_box(b0: Aabb, b1: Aabb) -> Aabb {
    Aabb {
        min: Corner {
            x: coord_min(b0.min.x, b1.min.x),
            y: coord_min(b0.min.y, b1.min.y),
            z: coord_min(b0.min.z, b1.min.z),
        },
        max: Corner {
            x: coord_max(b0.max.x, b1.max.x),
            y: coord_max(b0.max.y, b1.max.y),
            z: coord_max(b0.max.z, b1.max.z),
        },
    }
}

impl Aabb {
    /// The box is well-formed: min does not exceed max on any axis.
    pub open spec fn wf(self) -> bool {
        forall|a: int| 0 <= a < 3 ==> self.min.axis_spec(a) <= self.max.axis_spec(a)
    }

    /// `self` encloses `other`: on every axis, `other`'s interval lies
    /// inside `self`'s.
    pub open spec fn contains_box(self, other: Aabb) -> bool {
        forall|a: int|
            0 <= a < 3 ==> self.min.axis_spec(a) <= other.min.axis_spec(a)
                && other.max.axis_spec(a) <= self.max.axis_spec(a)
    }

    pub fn new(min: Corner, max: Corner) -> (r: Aabb)
        ensures
            r == (Aabb { min, max }),
    {
        Aabb { min, max }
    }
}

/// The union always encloses both arguments and is minimal: every box that
/// encloses both also encloses the union.
pub broadcast proof fn lemma_union_box(b0: Aabb, b1: Aabb)
    ensures
        (#[trigger] union_box(b0, b1)).contains_box(b0),
        union_box(b0, b1).contains_box(b1),
        forall|c: Aabb|
            c.contains_box(b0) && c.contains_box(b1) ==> #[trigger] c.contains_box(
                union_box(b0, b1),
            ),
        b0.wf() || b1.wf() ==> union_box(b0, b1).wf(),
{
    let u = union_box(b0, b1);
    if b0.wf() || b1.wf() {
        assert forall|a: int| 0 <= a < 3 implies u.min.axis_spec(a) <= u.max.axis_spec(a) by {
            assert(b0.wf() ==> b0.min.axis_spec(a) <= b0.max.axis_spec(a));
            assert(b1.wf() ==> b1.min.axis_spec(a) <= b1.max.axis_spec(a));
        }
    }
}

/// The box enclosing both inputs: componentwise min of the two mins and
/// componentwise max of the two maxes. It contains both inputs, and no
/// tighter box does: every box containing both also contains the result.
pub fn surrounding_box(box0: Aabb, box1: Aabb) -> (r: Aabb)
    ensures
        r == union_box(box0, box1),
        r.contains_box(box0),
        r.contains_box(box1),
        forall|c: Aabb| c.contains_box(box0) && c.contains_box(box1) ==> c.contains_box(r),
        box0.wf() || box1.wf() ==> r.wf(),
{
    proof {
        lemma_union_box(box0, box1);
    }
    Aabb {
        min: Corner {
            x: if box0.min.x < box1.min.x {
                box0.min.x
            } else {
                box1.min.x
            },
            y: if box0.min.y < box1.min.y {
                box0.min.y
            } else {
                box1.min.y
            },
            z: if box0.min.z < box1.min.z {
                box0.min.z
            } else {
                box1.min.z
            },
        },
        max: Corner {
            x: if box0.max.x > box1.max.x {
                box0.max.x
            } else {
                box1.max.x
            },
            y: if box0.max.y > box1.max.y {
                box0.max.y
            } else {
                box1.max.y
            },
            z: if box0.max.z > box1.max.z {
                box0.max.z
            } else {
                box1.max.z
            },
        },
    }
}

/// The box enclosing every box of a collection, or `None` when it is empty.
/// The result contains each input box and is minimal among boxes that do.
pub fn enclosing_box(boxes: &Vec<Aabb>) -> (r: Option<Aabb>)
    ensures
        r is Some <==> boxes@.len() > 0,
        r matches Some(b) ==> {
            &&& forall|i: int| 0 <= i < boxes@.len() ==> b.contains_box(#[trigger] boxes@[i])
            &&& forall|c: Aabb|
                (forall|i: int| 0 <= i < boxes@.len() ==> c.contains_box(#[trigger] boxes@[i]))
                    ==> c.contains_box(b)
            &&& (exists|i: int| 0 <= i < boxes@.len() && (#[trigger] boxes@[i]).wf()) ==> b.wf()
        },
{
    if boxes.len() == 0 {
        return None;
    }
    let mut acc = boxes[0];
    let mut k: usize = 1;
    while k < boxes.len()
        invariant
            1 <= k <= boxes@.len(),
            forall|i: int| 0 <= i < k ==> acc.contains_box(#[trigger] boxes@[i]),
            forall|c: Aabb|
                (forall|i: int| 0 <= i < k ==> c.contains_box(#[trigger] boxes@[i]))
                    ==> c.contains_box(acc),
            (exists|i: int| 0 <= i < k && (#[trigger] boxes@[i]).wf()) ==> acc.wf(),
        decreases boxes@.len() - k,
    {
        acc = surrounding_box(acc, boxes[k]);
        k = k + 1;
    }
    Some(acc)
}

} // verus!
