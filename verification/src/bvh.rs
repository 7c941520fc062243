//! Bounding-volume hierarchy: a binary tree over primitives, stored as a
//! flat arena with integer child indices.
//!
//! The build follows the classic recipe: pick an axis at random,
//! stable-sort the primitives by the minimum coordinate of their bounding
//! box on that axis, wrap one or two primitives in leaves, otherwise split
//! the sorted run at its midpoint and recurse. Every internal node's box is
//! the union of its children's boxes. Children are pushed before their
//! parent, so child indices are strictly smaller than the parent's and the
//! root is the last node of the arena.

use crate::aabb::{surrounding_box, union_box, Aabb};
use vstd::pervasive::VecAdditionalExecFns;
use vstd::prelude::*;
use vstd::seq_lib::lemma_multiset_commutative;
use vstd::seq_lib::to_multiset_update;

verus! {

/// One node of the arena: either a leaf that wraps one primitive, or an
/// internal node whose two children are earlier entries of the arena.
#[derive(Clone, Copy, Debug)]
pub struct BvhNode {
    pub left: Option<usize>,
    pub right: Option<usize>,
    pub prim: Option<usize>,
    pub bounds: Aabb,
}

/// Structural soundness of node `i`: a leaf names a primitive below
/// `nprims` and has no children; an internal node has two children with
/// strictly smaller arena indices, so every path down the tree terminates.
pub open spec fn node_shape(nodes: Seq<BvhNode>, nprims: nat, i: int) -> bool {
    let nd = nodes[i];
    if nd.prim is Some {
        nd.left is None && nd.right is None && (nd.prim->0 as nat) < nprims
    } else {
        nd.left is Some && nd.right is Some && (nd.left->0 as int) < i && (nd.right->0 as int) < i
    }
}

/// Node `i` is well formed for the given primitive boxes: its shape is
/// sound, a leaf carries its primitive's box, and an internal node carries
/// exactly the union of its children's boxes.
pub open spec fn node_wf(nodes: Seq<BvhNode>, boxes: Seq<Aabb>, i: int) -> bool {
    let nd = nodes[i];
    &&& node_shape(nodes, boxes.len(), i)
    &&& (nd.prim is Some ==> nd.bounds == boxes[nd.prim->0 as int])
    &&& (nd.prim is None ==> nd.bounds == union_box(
        nodes[nd.left->0 as int].bounds,
        nodes[nd.right->0 as int].bounds,
    ))
}

pub open spec fn arena_shape(nodes: Seq<BvhNode>, nprims: nat) -> bool {
    forall|i: int| 0 <= i < nodes.len() ==> node_shape(nodes, nprims, i)
}

pub open spec fn arena_wf(nodes: Seq<BvhNode>, boxes: Seq<Aabb>) -> bool {
    forall|i: int| 0 <= i < nodes.len() ==> node_wf(nodes, boxes, i)
}

/// The primitives of the subtree rooted at node `i`, in left-to-right leaf
/// order.
pub open spec fn subtree_prims(nodes: Seq<BvhNode>, i: int) -> Seq<usize>
    decreases i,
{
    if i < 0 || i >= nodes.len() {
        Seq::empty()
    } else {
        let nd = nodes[i];
        if nd.prim is Some {
            seq![nd.prim->0]
        } else if nd.left is Some && nd.right is Some && (nd.left->0 as int) < i && (nd.right->0
            as int) < i {
            subtree_prims(nodes, nd.left->0 as int) + subtree_prims(nodes, nd.right->0 as int)
        } else {
            Seq::empty()
        }
    }
}

/// Every primitive below `nprims` sits in exactly one leaf of `prims`, and
/// no other primitive does.
pub open spec fn covers_all(prims: Seq<usize>, nprims: nat) -> bool {
    forall|p: usize|
        #[trigger] prims.to_multiset().count(p) == if (p as nat) < nprims {
            1nat
        } else {
            0nat
        }
}

proof fn lemma_prefix_index(nodes1: Seq<BvhNode>, nodes2: Seq<BvhNode>, j: int)
    requires
        nodes1.len() <= nodes2.len(),
        nodes2.subrange(0, nodes1.len() as int) == nodes1,
        0 <= j < nodes1.len(),
    ensures
        nodes2[j] == nodes1[j],
{
    assert(nodes2.subrange(0, nodes1.len() as int)[j] == nodes2[j]);
}

/// Appending nodes to the arena leaves the well-formedness of the existing
/// nodes unchanged: a node only ever looks at entries below its own index.
proof fn lemma_node_wf_prefix(nodes1: Seq<BvhNode>, nodes2: Seq<BvhNode>, boxes: Seq<Aabb>, i: int)
    requires
        nodes1.len() <= nodes2.len(),
        nodes2.subrange(0, nodes1.len() as int) == nodes1,
        0 <= i < nodes1.len(),
        node_wf(nodes1, boxes, i),
    ensures
        node_wf(nodes2, boxes, i),
{
    lemma_prefix_index(nodes1, nodes2, i);
    let nd = nodes1[i];
    if nd.left is Some && (nd.left->0 as int) < i {
        lemma_prefix_index(nodes1, nodes2, nd.left->0 as int);
    }
    if nd.right is Some && (nd.right->0 as int) < i {
        lemma_prefix_index(nodes1, nodes2, nd.right->0 as int);
    }
}

/// Appending nodes to the arena does not change the subtree below an
/// existing node.
proof fn lemma_subtree_prims_prefix(nodes1: Seq<BvhNode>, nodes2: Seq<BvhNode>, i: int)
    requires
        nodes1.len() <= nodes2.len(),
        nodes2.subrange(0, nodes1.len() as int) == nodes1,
        0 <= i < nodes1.len(),
    ensures
        subtree_prims(nodes2, i) == subtree_prims(nodes1, i),
    decreases i,
{
    lemma_prefix_index(nodes1, nodes2, i);
    let nd = nodes1[i];
    if nd.prim is Some {
    } else if nd.left is Some && nd.right is Some && (nd.left->0 as int) < i && (nd.right->0
        as int) < i {
        lemma_subtree_prims_prefix(nodes1, nodes2, nd.left->0 as int);
        lemma_subtree_prims_prefix(nodes1, nodes2, nd.right->0 as int);
    }
}

/// The sort key of primitive `id` on `axis`: the minimum coordinate of its
/// bounding box on that axis.
pub open spec fn axis_key(boxes: Seq<Aabb>, axis: int, id: usize) -> u64 {
    boxes[id as int].min.axis_spec(axis)
}

/// `a` must precede `b` when stable-sorting `input` by `axis_key`: its key
/// is smaller, or the keys tie and `a` stood earlier in `input`.
spec fn key_before(boxes: Seq<Aabb>, axis: int, input: Seq<usize>, a: usize, b: usize) -> bool {
    ||| axis_key(boxes, axis, a) < axis_key(boxes, axis, b)
    ||| (axis_key(boxes, axis, a) == axis_key(boxes, axis, b) && input.index_of(a)
        < input.index_of(b))
}

/// In a sequence without duplicates, `index_of` recovers an element's
/// position.
proof fn lemma_index_of_self(s: Seq<usize>, k: int)
    requires
        s.no_duplicates(),
        0 <= k < s.len(),
    ensures
        s.index_of(s[k]) == k,
{
    s.lemma_index_contains(k);
    let i = s.index_of(s[k]);
    assert(0 <= i < s.len() && s[i] == s[k]);
}

/// A sequence whose multiset matches one without duplicates has none
/// either.
proof fn lemma_same_multiset_no_duplicates(a: Seq<usize>, b: Seq<usize>)
    requires
        a.no_duplicates(),
        a.to_multiset() == b.to_multiset(),
    ensures
        b.no_duplicates(),
{
    broadcast use vstd::seq_lib::group_to_multiset_ensures;

    a.lemma_multiset_has_no_duplicates();
    b.lemma_multiset_has_no_duplicates_conv();
}

/// Stable insertion sort of primitive ids by the minimum box coordinate on
/// `axis`: afterwards the keys ascend, and ids whose keys tie keep the
/// order they had on entry.
pub fn sort_by_box_min(ids: &mut Vec<usize>, boxes: &Vec<Aabb>, axis: usize)
    requires
        axis < 3,
        old(ids)@.len() >= 1,
        forall|k: int| 0 <= k < old(ids)@.len() ==> (#[trigger] old(ids)@[k] as int) < boxes@.len(),
        old(ids)@.no_duplicates(),
    ensures
        final(ids)@.len() == old(ids)@.len(),
        final(ids)@.to_multiset() == old(ids)@.to_multiset(),
        final(ids)@.no_duplicates(),
        forall|k: int| 0 <= k < final(ids)@.len() ==> (#[trigger] final(ids)@[k] as int)
            < boxes@.len(),
        forall|p: int, q: int|
            0 <= p < q < final(ids)@.len() ==> axis_key(boxes@, axis as int, final(ids)@[p])
                <= axis_key(boxes@, axis as int, final(ids)@[q]),
        forall|p: int, q: int|
            0 <= p < q < final(ids)@.len() && axis_key(boxes@, axis as int, final(ids)@[p])
                == axis_key(boxes@, axis as int, final(ids)@[q]) ==> old(ids)@.index_of(
                final(ids)@[p],
            ) < old(ids)@.index_of(final(ids)@[q]),
{
    let ghost input = ids@;
    let len = ids.len();
    proof {
        assert(ids@.subrange(1, len as int) =~= input.subrange(1, len as int));
        lemma_index_of_self(input, 0);
    }
    let mut i: usize = 1;
    while i < len
        invariant
            1 <= i <= len,
            len == ids@.len(),
            len == input.len(),
            axis < 3,
            ids@.to_multiset() == input.to_multiset(),
            input.no_duplicates(),
            forall|k: int| 0 <= k < len ==> (#[trigger] ids@[k] as int) < boxes@.len(),
            ids@.subrange(i as int, len as int) == input.subrange(i as int, len as int),
            forall|p: int| 0 <= p < i ==> input.index_of(#[trigger] ids@[p]) < i,
            forall|p: int, q: int|
                0 <= p < q < i ==> key_before(boxes@, axis as int, input, ids@[p], ids@[q]),
        decreases len - i,
    {
        let ghost ax = axis as int;
        proof {
            assert(ids@[i as int] == input[i as int]) by {
                assert(ids@.subrange(i as int, len as int)[0] == ids@[i as int]);
            }
            lemma_index_of_self(input, i as int);
            assert forall|m: int| i as int <= m < len implies ids@[m] == #[trigger] input[m] by {
                assert(ids@.subrange(i as int, len as int)[m - i] == ids@[m]);
                assert(input.subrange(i as int, len as int)[m - i] == input[m]);
            }
            assert(ids@.subrange(i as int + 1, len as int) =~= input.subrange(
                i as int + 1,
                len as int,
            ));
        }
        let mut j: usize = i;
        while j > 0 && boxes[ids[j - 1]].min.axis(axis) > boxes[ids[j]].min.axis(axis)
            invariant
                j <= i < len,
                len == ids@.len(),
                len == input.len(),
                axis < 3,
                ax == axis as int,
                ids@.to_multiset() == input.to_multiset(),
                input.no_duplicates(),
                forall|k: int| 0 <= k < len ==> (#[trigger] ids@[k] as int) < boxes@.len(),
                ids@.subrange(i as int + 1, len as int) == input.subrange(
                    i as int + 1,
                    len as int,
                ),
                ids@[j as int] == input[i as int],
                input.index_of(input[i as int]) == i,
                forall|p: int| 0 <= p <= i && p != j ==> input.index_of(#[trigger] ids@[p]) < i,
                forall|p: int, q: int|
                    0 <= p < q <= i && q != j ==> key_before(boxes@, ax, input, ids@[p], ids@[q]),
                forall|q: int|
                    j < q <= i ==> axis_key(boxes@, ax, ids@[j as int]) < axis_key(
                        boxes@,
                        ax,
                        #[trigger] ids@[q],
                    ),
            decreases j,
        {
            let ghost s_old = ids@;
            let a = ids[j - 1];
            let b = ids[j];
            ids.set(j - 1, b);
            ids.set(j, a);
            proof {
                let jj = j as int;
                assert(ids@ == s_old.update(jj - 1, b).update(jj, a));
                assert(ids@.to_multiset() == input.to_multiset()) by {
                    broadcast use vstd::multiset::group_multiset_axioms;
                    broadcast use vstd::seq_lib::group_to_multiset_ensures;
                    broadcast use to_multiset_update;

                    assert(s_old.contains(a)) by {
                        assert(s_old[jj - 1] == a);
                    }
                    assert(s_old.update(jj - 1, b).to_multiset() == s_old.to_multiset().insert(
                        b,
                    ).remove(a));
                    assert(s_old.update(jj - 1, b)[jj] == b);
                    assert(ids@.to_multiset() == s_old.update(jj - 1, b).to_multiset().insert(
                        a,
                    ).remove(b));
                    assert(ids@.to_multiset() =~= s_old.to_multiset());
                }
                assert(ids@.subrange(i as int + 1, len as int) =~= s_old.subrange(
                    i as int + 1,
                    len as int,
                ));
                assert forall|p: int, q: int| 0 <= p < q <= i && q != jj - 1 implies key_before(
                    boxes@,
                    ax,
                    input,
                    ids@[p],
                    ids@[q],
                ) by {
                    if q == jj {
                        if p < jj - 1 {
                            assert(key_before(boxes@, ax, input, s_old[p], s_old[jj - 1]));
                        } else {
                            assert(p == jj - 1);
                            assert(axis_key(boxes@, ax, b) < axis_key(boxes@, ax, a));
                        }
                    } else if q > jj {
                        if p == jj - 1 {
                            assert(axis_key(boxes@, ax, s_old[jj]) < axis_key(
                                boxes@,
                                ax,
                                s_old[q],
                            ));
                        } else if p == jj {
                            assert(key_before(boxes@, ax, input, s_old[jj - 1], s_old[q]));
                        } else {
                            assert(key_before(boxes@, ax, input, s_old[p], s_old[q]));
                        }
                    }
                }
                assert forall|q: int| jj - 1 < q <= i implies axis_key(
                    boxes@,
                    ax,
                    ids@[jj - 1],
                ) < axis_key(boxes@, ax, #[trigger] ids@[q]) by {
                    if q == jj {
                        assert(axis_key(boxes@, ax, b) < axis_key(boxes@, ax, a));
                    } else {
                        assert(axis_key(boxes@, ax, s_old[jj]) < axis_key(boxes@, ax, s_old[q]));
                    }
                }
            }
            j = j - 1;
        }
        proof {
            let ghost jj = j as int;
            assert forall|p: int, q: int| 0 <= p < q <= i implies key_before(
                boxes@,
                ax,
                input,
                ids@[p],
                ids@[q],
            ) by {
                if q == jj {
                    assert(axis_key(boxes@, ax, ids@[jj - 1]) <= axis_key(boxes@, ax, ids@[jj]));
                    if p < jj - 1 {
                        assert(key_before(boxes@, ax, input, ids@[p], ids@[jj - 1]));
                        assert(input.index_of(ids@[p]) < i);
                    }
                    assert(input.index_of(ids@[jj]) == i);
                    if p <= jj - 1 {
                        assert(input.index_of(ids@[p]) < i);
                    }
                } else {
                    assert(key_before(boxes@, ax, input, ids@[p], ids@[q]));
                }
            }
            assert(ids@.subrange(i as int + 1, len as int) == input.subrange(
                i as int + 1,
                len as int,
            ));
            assert forall|p: int| 0 <= p < i + 1 implies input.index_of(#[trigger] ids@[p]) < i
                + 1 by {
                if p == jj {
                    assert(ids@[jj] == input[i as int]);
                }
            }
        }
        i = i + 1;
    }
    proof {
        lemma_same_multiset_no_duplicates(input, ids@);
        assert forall|p: int, q: int|
            0 <= p < q < ids@.len() && axis_key(boxes@, axis as int, ids@[p]) == axis_key(
                boxes@,
                axis as int,
                ids@[q],
            ) implies input.index_of(ids@[p]) < input.index_of(ids@[q]) by {
            assert(key_before(boxes@, axis as int, input, ids@[p], ids@[q]));
        }
        assert forall|p: int, q: int| 0 <= p < q < ids@.len() implies axis_key(
            boxes@,
            axis as int,
            ids@[p],
        ) <= axis_key(boxes@, axis as int, ids@[q]) by {
            assert(key_before(boxes@, axis as int, input, ids@[p], ids@[q]));
        }
    }
}

/// Relies on rand::random_range: the result lies within the given range.
#[verifier::external_body]
fn random_axis() -> (r: usize)
    ensures
        r < 3,
{
    rand::random_range(0usize..3)
}

fn add_leaf(nodes: &mut Vec<BvhNode>, prim: usize, boxes: &Vec<Aabb>) -> (idx: usize)
    requires
        (prim as int) < boxes@.len(),
        arena_wf(old(nodes)@, boxes@),
    ensures
        idx as int == old(nodes)@.len(),
        final(nodes)@.len() == old(nodes)@.len() + 1,
        final(nodes)@.subrange(0, old(nodes)@.len() as int) == old(nodes)@,
        arena_wf(final(nodes)@, boxes@),
        subtree_prims(final(nodes)@, idx as int) == seq![prim],
{
    let idx = nodes.len();
    let nd = BvhNode { left: None, right: None, prim: Some(prim), bounds: boxes[prim] };
    nodes.push(nd);
    proof {
        assert(nodes@.subrange(0, old(nodes)@.len() as int) =~= old(nodes)@);
        assert forall|i: int| 0 <= i < nodes@.len() implies node_wf(nodes@, boxes@, i) by {
            if i < idx {
                lemma_node_wf_prefix(old(nodes)@, nodes@, boxes@, i);
            } else {
                assert(nodes@[i] == nd);
            }
        }
        assert(subtree_prims(nodes@, idx as int) =~= seq![prim]);
    }
    idx
}

fn add_node(nodes: &mut Vec<BvhNode>, left: usize, right: usize, boxes: Ghost<Seq<Aabb>>) -> (idx: usize)
    requires
        (left as int) < old(nodes)@.len(),
        (right as int) < old(nodes)@.len(),
        arena_wf(old(nodes)@, boxes@),
    ensures
        idx as int == old(nodes)@.len(),
        final(nodes)@.len() == old(nodes)@.len() + 1,
        final(nodes)@.subrange(0, old(nodes)@.len() as int) == old(nodes)@,
        arena_wf(final(nodes)@, boxes@),
        subtree_prims(final(nodes)@, idx as int) == subtree_prims(old(nodes)@, left as int)
            + subtree_prims(old(nodes)@, right as int),
        final(nodes)@[idx as int].bounds == union_box(
            old(nodes)@[left as int].bounds,
            old(nodes)@[right as int].bounds,
        ),
{
    let idx = nodes.len();
    let lb = nodes[left].bounds;
    let rb = nodes[right].bounds;
    let bb = surrounding_box(lb, rb);
    let nd = BvhNode { left: Some(left), right: Some(right), prim: None, bounds: bb };
    nodes.push(nd);
    proof {
        assert(nodes@.subrange(0, old(nodes)@.len() as int) =~= old(nodes)@);
        lemma_prefix_index(old(nodes)@, nodes@, left as int);
        lemma_prefix_index(old(nodes)@, nodes@, right as int);
        assert forall|i: int| 0 <= i < nodes@.len() implies node_wf(nodes@, boxes@, i) by {
            if i < idx {
                lemma_node_wf_prefix(old(nodes)@, nodes@, boxes@, i);
            } else {
                assert(nodes@[i] == nd);
            }
        }
        assert(subtree_prims(nodes@, idx as int) == subtree_prims(nodes@, left as int)
            + subtree_prims(nodes@, right as int));
        lemma_subtree_prims_prefix(old(nodes)@, nodes@, left as int);
        lemma_subtree_prims_prefix(old(nodes)@, nodes@, right as int);
    }
    idx
}

/// Recursive build over a run of primitive ids: sort by a random axis,
/// wrap one or two primitives in leaves, otherwise split the sorted run at
/// its midpoint, build both halves, and join them under a fresh internal
/// node. Returns the subtree's root, which is the last node pushed.
fn build(nodes: &mut Vec<BvhNode>, ids: Vec<usize>, boxes: &Vec<Aabb>) -> (root: usize)
    requires
        1 <= ids@.len(),
        forall|k: int| 0 <= k < ids@.len() ==> (#[trigger] ids@[k] as int) < boxes@.len(),
        ids@.no_duplicates(),
        arena_wf(old(nodes)@, boxes@),
        old(nodes)@.len() + 2 * ids@.len() - 1 <= usize::MAX,
    ensures
        final(nodes)@.len() == old(nodes)@.len() + 2 * ids@.len() - 1,
        root as int == final(nodes)@.len() - 1,
        final(nodes)@.subrange(0, old(nodes)@.len() as int) == old(nodes)@,
        arena_wf(final(nodes)@, boxes@),
        subtree_prims(final(nodes)@, root as int).to_multiset() == ids@.to_multiset(),
    decreases ids@.len(),
{
    let mut run = ids;
    let axis = random_axis();
    sort_by_box_min(&mut run, boxes, axis);
    let n = run.len();
    if n == 1 {
        let r = add_leaf(nodes, run[0], boxes);
        proof {
            assert(run@ =~= seq![run@[0]]);
        }
        r
    } else if n == 2 {
        let ghost nodes0 = nodes@;
        let l = add_leaf(nodes, run[0], boxes);
        let ghost nodes1 = nodes@;
        let r = add_leaf(nodes, run[1], boxes);
        let ghost nodes2 = nodes@;
        let p = add_node(nodes, l, r, Ghost(boxes@));
        proof {
            lemma_subtree_prims_prefix(nodes1, nodes2, l as int);
            assert(subtree_prims(nodes@, p as int) == seq![run@[0]] + seq![run@[1]]);
            assert(run@ =~= seq![run@[0]] + seq![run@[1]]);
            assert(nodes@.subrange(0, nodes0.len() as int) =~= nodes0) by {
                assert(forall|m: int|
                    0 <= m < nodes0.len() ==> nodes@.subrange(0, nodes0.len() as int)[m]
                        == #[trigger] nodes@[m] && nodes2.subrange(0, nodes1.len() as int)[m]
                        == nodes2[m] && nodes1.subrange(0, nodes0.len() as int)[m] == nodes1[m]
                        && nodes@.subrange(0, nodes2.len() as int)[m] == nodes@[m]);
            }
        }
        p
    } else {
        let half = n / 2;
        let ghost sorted = run@;
        let right_run = run.split_off(half);
        proof {
            assert(sorted =~= sorted.subrange(0, half as int) + sorted.subrange(
                half as int,
                sorted.len() as int,
            ));
            lemma_multiset_commutative(run@, right_run@);
        }
        let ghost nodes0 = nodes@;
        let l = build(nodes, run, boxes);
        let ghost nodes1 = nodes@;
        let r = build(nodes, right_run, boxes);
        let ghost nodes2 = nodes@;
        let p = add_node(nodes, l, r, Ghost(boxes@));
        proof {
            lemma_subtree_prims_prefix(nodes1, nodes2, l as int);
            lemma_multiset_commutative(
                subtree_prims(nodes2, l as int),
                subtree_prims(nodes2, r as int),
            );
            assert(nodes@.subrange(0, nodes0.len() as int) =~= nodes0) by {
                assert(forall|m: int|
                    0 <= m < nodes0.len() ==> nodes@.subrange(0, nodes0.len() as int)[m]
                        == #[trigger] nodes@[m] && nodes2.subrange(0, nodes1.len() as int)[m]
                        == nodes2[m] && nodes1.subrange(0, nodes0.len() as int)[m] == nodes1[m]
                        && nodes@.subrange(0, nodes2.len() as int)[m] == nodes@[m]);
            }
        }
        p
    }
}

/// A bounding-volume hierarchy over primitives `0 .. n`, where primitive
/// `p`'s bounding box is `boxes[p]` of the collection the tree was built
/// from.
pub struct BvhTree {
    pub root: usize,
    pub nodes: Vec<BvhNode>,
}

impl BvhTree {
    /// The tree is well formed for the given primitive boxes: the root is
    /// the last node of a well-formed arena, and its leaves hold every
    /// primitive exactly once.
    pub open spec fn wf(self, boxes: Seq<Aabb>) -> bool {
        &&& self.nodes@.len() >= 1
        &&& self.root as int == self.nodes@.len() - 1
        &&& arena_wf(self.nodes@, boxes)
        &&& covers_all(subtree_prims(self.nodes@, self.root as int), boxes.len())
    }

    /// The box of the whole hierarchy: the root node's bounds.
    pub fn bounding_box(&self) -> (r: Aabb)
        requires
            self.nodes@.len() >= 1,
            self.root as int == self.nodes@.len() - 1,
        ensures
            r == self.nodes@[self.root as int].bounds,
    {
        self.nodes[self.root].bounds
    }

    /// Build the hierarchy over primitives `0 .. boxes.len()`. The tree has
    /// exactly one leaf per primitive and one internal node per split.
    pub fn new(boxes: &Vec<Aabb>) -> (t: BvhTree)
        requires
            1 <= boxes@.len(),
            2 * boxes@.len() - 1 <= usize::MAX,
        ensures
            t.wf(boxes@),
            t.nodes@.len() == 2 * boxes@.len() - 1,
    {
        let n = boxes.len();
        let mut ids: Vec<usize> = Vec::new();
        let mut k: usize = 0;
        while k < n
            invariant
                k <= n,
                ids@.len() == k,
                forall|m: int| 0 <= m < k ==> #[trigger] ids@[m] == m as usize,
            decreases n - k,
        {
            ids.push(k);
            k = k + 1;
        }
        proof {
            assert(ids@.no_duplicates());
            assert forall|m: int| 0 <= m < ids@.len() implies (#[trigger] ids@[m] as int)
                < boxes@.len() by {}
        }
        let ghost id_list = ids@;
        let mut nodes: Vec<BvhNode> = Vec::new();
        let root = build(&mut nodes, ids, boxes);
        proof {
            broadcast use vstd::seq_lib::group_to_multiset_ensures;

            let prims = subtree_prims(nodes@, root as int);
            id_list.lemma_multiset_has_no_duplicates();
            assert forall|p: usize|
                #[trigger] prims.to_multiset().count(p) == if (p as nat) < boxes@.len() {
                    1nat
                } else {
                    0nat
                } by {
                if (p as nat) < boxes@.len() {
                    assert(id_list[p as int] == p);
                    assert(id_list.contains(p));
                    assert(id_list.to_multiset().contains(p));
                } else {
                    if id_list.to_multiset().count(p) > 0 {
                        assert(id_list.contains(p));
                        let w = choose|w: int| 0 <= w < id_list.len() && id_list[w] == p;
                        assert(id_list[w] == w as usize);
                        assert(false);
                    }
                }
            }
        }
        BvhTree { root, nodes }
    }
}

} // verus!
