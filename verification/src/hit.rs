//! Nearest-hit queries over the hierarchy.
//!
//! The floating-point tests cannot run here, so a query is phrased over
//! their outcomes: `box_hits[i]` says whether the slab test accepted node
//! `i`'s box for the ray and interval at hand, and `prim_hits[p]` carries
//! the accepted hit distance of primitive `p` as an order-encoded key, or
//! `None` when the primitive is missed. Under the hypothesis that the box
//! outcomes are conservative — a node whose subtree holds a hit primitive
//! never tests negative, which is what containment of child boxes gives
//! geometrically — traversal provably returns the very hit that a linear
//! scan over all primitives finds.

use crate::bvh::{arena_shape, node_shape, subtree_prims, BvhNode, BvhTree};
use vstd::prelude::*;

verus! {

/// How the traversal joins the answers of two children: the smaller hit
/// distance wins; on a tie the right child's answer is kept.
pub open spec fn combine_hits(l: Option<(usize, u64)>, r: Option<(usize, u64)>) -> Option<
    (usize, u64),
> {
    match (l, r) {
        (Some(a), Some(b)) => if a.1 < b.1 {
            Some(a)
        } else {
            Some(b)
        },
        (Some(a), None) => Some(a),
        (None, Some(b)) => Some(b),
        (None, None) => None,
    }
}

/// The answer of the recursive traversal below node `i`: nothing when the
/// node's own box test failed; a leaf hands back its primitive's hit; an
/// internal node queries both children unconditionally and combines.
pub open spec fn bvh_hit_spec(
    nodes: Seq<BvhNode>,
    i: int,
    box_hits: Seq<bool>,
    prim_hits: Seq<Option<u64>>,
) -> Option<(usize, u64)>
    decreases i,
{
    if i < 0 || i >= nodes.len() {
        None
    } else if !box_hits[i] {
        None
    } else {
        let nd = nodes[i];
        if nd.prim is Some {
            match prim_hits[nd.prim->0 as int] {
                Some(k) => Some((nd.prim->0, k)),
                None => None,
            }
        } else if nd.left is Some && nd.right is Some && (nd.left->0 as int) < i && (nd.right->0
            as int) < i {
            combine_hits(
                bvh_hit_spec(nodes, nd.left->0 as int, box_hits, prim_hits),
                bvh_hit_spec(nodes, nd.right->0 as int, box_hits, prim_hits),
            )
        } else {
            None
        }
    }
}

/// The answer of the linear scan over primitives `0 .. n`: each hit in
/// turn replaces the best one only when strictly nearer, so the first of
/// equally near hits is kept.
pub open spec fn closest_upto(prim_hits: Seq<Option<u64>>, n: int) -> Option<(usize, u64)>
    decreases n,
{
    if n <= 0 {
        None
    } else {
        let prev = closest_upto(prim_hits, n - 1);
        match prim_hits[n - 1] {
            None => prev,
            Some(k) => match prev {
                None => Some(((n - 1) as usize, k)),
                Some(b) => if k < b.1 {
                    Some(((n - 1) as usize, k))
                } else {
                    prev
                },
            },
        }
    }
}

/// The nearest hit of the linear scan over all primitives.
pub open spec fn closest_spec(prim_hits: Seq<Option<u64>>) -> Option<(usize, u64)> {
    closest_upto(prim_hits, prim_hits.len() as int)
}

/// Linear scan over every primitive's outcome: the nearest accepted hit,
/// the first one when distances tie.
pub fn closest_hit(prim_hits: &Vec<Option<u64>>) -> (r: Option<(usize, u64)>)
    ensures
        r == closest_spec(prim_hits@),
{
    let mut best: Option<(usize, u64)> = None;
    let mut k: usize = 0;
    while k < prim_hits.len()
        invariant
            k <= prim_hits@.len(),
            best == closest_upto(prim_hits@, k as int),
        decreases prim_hits@.len() - k,
    {
        match prim_hits[k] {
            Some(t) => {
                best = match best {
                    None => Some((k, t)),
                    Some(b) => if t < b.1 {
                        Some((k, t))
                    } else {
                        Some(b)
                    },
                };
            },
            None => {},
        }
        k = k + 1;
    }
    best
}

impl BvhTree {
    /// Recursive traversal with every box and primitive outcome supplied
    /// up front; returns exactly what `bvh_hit_spec` describes.
    pub fn hit(&self, box_hits: &Vec<bool>, prim_hits: &Vec<Option<u64>>) -> (r: Option<
        (usize, u64),
    >)
        requires
            self.nodes@.len() >= 1,
            self.root as int == self.nodes@.len() - 1,
            arena_shape(self.nodes@, prim_hits@.len()),
            box_hits@.len() == self.nodes@.len(),
        ensures
            r == bvh_hit_spec(self.nodes@, self.root as int, box_hits@, prim_hits@),
    {
        self.hit_node(self.root, box_hits, prim_hits)
    }

    fn hit_node(&self, id: usize, box_hits: &Vec<bool>, prim_hits: &Vec<Option<u64>>) -> (r:
        Option<(usize, u64)>)
        requires
            (id as int) < self.nodes@.len(),
            arena_shape(self.nodes@, prim_hits@.len()),
            box_hits@.len() == self.nodes@.len(),
        ensures
            r == bvh_hit_spec(self.nodes@, id as int, box_hits@, prim_hits@),
        decreases id,
    {
        if !box_hits[id] {
            return None;
        }
        let nd = self.nodes[id];
        proof {
            assert(node_shape(self.nodes@, prim_hits@.len(), id as int));
        }
        match nd.prim {
            Some(p) => match prim_hits[p] {
                Some(k) => Some((p, k)),
                None => None,
            },
            None => {
                let l = nd.left.unwrap();
                let r = nd.right.unwrap();
                let hl = self.hit_node(l, box_hits, prim_hits);
                let hr = self.hit_node(r, box_hits, prim_hits);
                match (hl, hr) {
                    (Some(a), Some(b)) => if a.1 < b.1 {
                        Some(a)
                    } else {
                        Some(b)
                    },
                    (Some(a), None) => Some(a),
                    (None, Some(b)) => Some(b),
                    (None, None) => None,
                }
            },
        }
    }
}

/// The running best over a sequence of reported hits: a later report
/// replaces the best when its distance is no larger, so among equally near
/// hits the last report wins — exactly how the recursive traversal's
/// combine resolves ties toward the right child.
pub open spec fn best_of(offers: Seq<(usize, u64)>) -> Option<(usize, u64)>
    decreases offers.len(),
{
    if offers.len() == 0 {
        None
    } else {
        let prev = best_of(offers.drop_last());
        let o = offers.last();
        match prev {
            None => Some(o),
            Some(b) => if o.1 <= b.1 {
                Some(o)
            } else {
                prev
            },
        }
    }
}

/// The running state of one nearest-hit traversal, driven from outside:
/// the caller pops a node with `next_node`, performs the slab test on its
/// box, reports the outcome to `enter_node`, and when a leaf's box accepts
/// it tests that leaf's primitive and reports any hit with `offer`. The
/// state keeps the running best hit exactly as `best_of` folds the
/// reported hits.
pub struct Traversal {
    /// Nodes whose box test is still pending, next one last.
    pub pending: Vec<usize>,
    /// The best (nearest) primitive hit reported so far.
    pub best: Option<(usize, u64)>,
    /// Every primitive hit reported so far, in order.
    pub offers: Ghost<Seq<(usize, u64)>>,
}

impl Traversal {
    /// Every pending node is a node of `tree`.
    pub open spec fn wf(self, tree: BvhTree) -> bool {
        forall|k: int|
            0 <= k < self.pending@.len() ==> (#[trigger] self.pending@[k] as int)
                < tree.nodes@.len()
    }

    /// The running best is the fold of the reported hits.
    pub open spec fn inv(self) -> bool {
        self.best == best_of(self.offers@)
    }

    /// Pop the node whose box must be tested next; `None` when the
    /// traversal is complete.
    pub fn next_node(&mut self) -> (r: Option<usize>)
        ensures
            final(self).best == old(self).best,
            final(self).offers@ == old(self).offers@,
            old(self).pending@.len() == 0 ==> r is None && final(self).pending@ == old(self).pending@,
            old(self).pending@.len() > 0 ==> r == Some(old(self).pending@.last())
                && final(self).pending@ == old(self).pending@.drop_last(),
    {
        self.pending.pop()
    }

    /// Report the box test of `node`: a miss prunes the whole subtree; on
    /// an accept, an internal node schedules both children (left on top,
    /// so it is visited first) and a leaf hands back its primitive for the
    /// caller to test against the ray.
    pub fn enter_node(&mut self, tree: &BvhTree, node: usize, box_hit: bool) -> (prim: Option<
        usize,
    >)
        requires
            old(self).wf(*tree),
            (node as int) < tree.nodes@.len(),
            tree.nodes@[node as int].prim is None ==> tree.nodes@[node as int].left is Some
                && tree.nodes@[node as int].right is Some && (tree.nodes@[node as int].left->0
                as int) < tree.nodes@.len() && (tree.nodes@[node as int].right->0 as int)
                < tree.nodes@.len(),
        ensures
            final(self).wf(*tree),
            final(self).best == old(self).best,
            final(self).offers@ == old(self).offers@,
            !box_hit ==> final(self).pending@ == old(self).pending@ && prim is None,
            box_hit && tree.nodes@[node as int].prim is Some ==> final(self).pending@
                == old(self).pending@ && prim == tree.nodes@[node as int].prim,
            box_hit && tree.nodes@[node as int].prim is None ==> prim is None
                && final(self).pending@ == old(self).pending@.push(
                tree.nodes@[node as int].right->0,
            ).push(tree.nodes@[node as int].left->0),
    {
        if !box_hit {
            return None;
        }
        let nd = tree.nodes[node];
        match nd.prim {
            Some(p) => Some(p),
            None => {
                self.pending.push(nd.right.unwrap());
                self.pending.push(nd.left.unwrap());
                None
            },
        }
    }

    /// Report an accepted primitive hit at the order-encoded distance
    /// `key`: it replaces the running best when no farther.
    pub fn offer(&mut self, prim: usize, key: u64)
        requires
            old(self).inv(),
        ensures
            final(self).inv(),
            final(self).pending@ == old(self).pending@,
            final(self).offers@ == old(self).offers@.push((prim, key)),
            final(self).best == best_of(final(self).offers@),
    {
        self.best = match self.best {
            None => Some((prim, key)),
            Some(b) => if key <= b.1 {
                Some((prim, key))
            } else {
                Some(b)
            },
        };
        proof {
            self.offers@ = self.offers@.push((prim, key));
            assert(self.offers@.drop_last() =~= old(self).offers@);
        }
    }
}

impl BvhTree {
    /// Start a nearest-hit traversal at the root.
    pub fn begin_hit(&self) -> (t: Traversal)
        requires
            self.nodes@.len() >= 1,
            self.root as int == self.nodes@.len() - 1,
        ensures
            t.wf(*self),
            t.inv(),
            t.pending@ == seq![self.root],
            t.offers@ == Seq::<(usize, u64)>::empty(),
            t.best is None,
    {
        let mut pending: Vec<usize> = Vec::new();
        pending.push(self.root);
        proof {
            assert(pending@ =~= seq![self.root]);
        }
        Traversal { pending, best: None, offers: Ghost(Seq::empty()) }
    }
}

/// The hits an honest driver reports below node `i`, in the order the
/// traversal visits them: nothing under a failed box test, a leaf's single
/// accepted hit, an internal node's left reports followed by its right
/// reports.
pub open spec fn consulted_hits(
    nodes: Seq<BvhNode>,
    i: int,
    box_hits: Seq<bool>,
    prim_hits: Seq<Option<u64>>,
) -> Seq<(usize, u64)>
    decreases i,
{
    if i < 0 || i >= nodes.len() {
        Seq::empty()
    } else if !box_hits[i] {
        Seq::empty()
    } else {
        let nd = nodes[i];
        if nd.prim is Some {
            match prim_hits[nd.prim->0 as int] {
                Some(k) => seq![(nd.prim->0, k)],
                None => Seq::empty(),
            }
        } else if nd.left is Some && nd.right is Some && (nd.left->0 as int) < i && (nd.right->0
            as int) < i {
            consulted_hits(nodes, nd.left->0 as int, box_hits, prim_hits) + consulted_hits(
                nodes,
                nd.right->0 as int,
                box_hits,
                prim_hits,
            )
        } else {
            Seq::empty()
        }
    }
}

/// Folding a run of reports and then another equals combining the folds:
/// `best_of` splits over concatenation the way the traversal combines.
proof fn lemma_best_of_concat(a: Seq<(usize, u64)>, b: Seq<(usize, u64)>)
    ensures
        best_of(a + b) == combine_hits(best_of(a), best_of(b)),
    decreases b.len(),
{
    if b.len() == 0 {
        assert(a + b =~= a);
    } else {
        lemma_best_of_concat(a, b.drop_last());
        assert((a + b).drop_last() =~= a + b.drop_last());
        assert((a + b).len() > 0);
        assert((a + b).last() == b.last());
    }
}

/// A driver that pops every scheduled node, tests exactly what the state
/// machine hands out and reports every accepted hit ends with `best_of`
/// of the in-order reports — which is exactly the recursive traversal's
/// answer.
pub proof fn lemma_driver_matches_traversal(
    nodes: Seq<BvhNode>,
    i: int,
    box_hits: Seq<bool>,
    prim_hits: Seq<Option<u64>>,
)
    requires
        arena_shape(nodes, prim_hits.len()),
        box_hits.len() == nodes.len(),
        0 <= i < nodes.len(),
    ensures
        best_of(consulted_hits(nodes, i, box_hits, prim_hits)) == bvh_hit_spec(
            nodes,
            i,
            box_hits,
            prim_hits,
        ),
    decreases i,
{
    assert(node_shape(nodes, prim_hits.len(), i));
    let nd = nodes[i];
    if !box_hits[i] {
    } else if nd.prim is Some {
        match prim_hits[nd.prim->0 as int] {
            Some(k) => {
                let o = (nd.prim->0, k);
                assert(seq![o].drop_last() =~= Seq::<(usize, u64)>::empty());
                assert(best_of(Seq::<(usize, u64)>::empty()) is None);
                assert(best_of(seq![o]) == Some(o));
            },
            None => {},
        }
    } else {
        let l = nd.left->0 as int;
        let rt = nd.right->0 as int;
        lemma_driver_matches_traversal(nodes, l, box_hits, prim_hits);
        lemma_driver_matches_traversal(nodes, rt, box_hits, prim_hits);
        lemma_best_of_concat(
            consulted_hits(nodes, l, box_hits, prim_hits),
            consulted_hits(nodes, rt, box_hits, prim_hits),
        );
    }
}

/// The number of nodes in the subtree below node `i`.
pub open spec fn subtree_size(nodes: Seq<BvhNode>, i: int) -> nat
    decreases i,
{
    if i < 0 || i >= nodes.len() {
        1
    } else {
        let nd = nodes[i];
        if nd.prim is Some {
            1
        } else if nd.left is Some && nd.right is Some && (nd.left->0 as int) < i && (nd.right->0
            as int) < i {
            1 + subtree_size(nodes, nd.left->0 as int) + subtree_size(nodes, nd.right->0 as int)
        } else {
            1
        }
    }
}

/// The work a traversal still owes: the total size of the subtrees whose
/// roots wait on the stack.
pub open spec fn pending_work(nodes: Seq<BvhNode>, stack: Seq<usize>) -> nat
    decreases stack.len(),
{
    if stack.len() == 0 {
        0
    } else {
        subtree_size(nodes, stack.last() as int) + pending_work(nodes, stack.drop_last())
    }
}

/// The hits a traversal will still report: the in-order reports of each
/// waiting subtree, the top of the stack first.
pub open spec fn pending_consulted(
    nodes: Seq<BvhNode>,
    stack: Seq<usize>,
    box_hits: Seq<bool>,
    prim_hits: Seq<Option<u64>>,
) -> Seq<(usize, u64)>
    decreases stack.len(),
{
    if stack.len() == 0 {
        Seq::empty()
    } else {
        consulted_hits(nodes, stack.last() as int, box_hits, prim_hits) + pending_consulted(
            nodes,
            stack.drop_last(),
            box_hits,
            prim_hits,
        )
    }
}

impl BvhTree {
    /// The traversal as the driver runs it: pop a node, report its box
    /// test, test a primitive when a leaf's box accepts — so pruned
    /// subtrees never have their primitives consulted. Returns exactly
    /// what the recursive traversal returns.
    pub fn hit_driven(&self, box_hits: &Vec<bool>, prim_hits: &Vec<Option<u64>>) -> (r: Option<
        (usize, u64),
    >)
        requires
            self.nodes@.len() >= 1,
            self.root as int == self.nodes@.len() - 1,
            arena_shape(self.nodes@, prim_hits@.len()),
            box_hits@.len() == self.nodes@.len(),
        ensures
            r == bvh_hit_spec(self.nodes@, self.root as int, box_hits@, prim_hits@),
    {
        let ghost nodes = self.nodes@;
        let ghost full = consulted_hits(nodes, self.root as int, box_hits@, prim_hits@);
        let mut tr = self.begin_hit();
        proof {
            let empty_stack = Seq::<usize>::empty();
            assert(tr.pending@.drop_last() =~= empty_stack);
            assert(pending_consulted(nodes, empty_stack, box_hits@, prim_hits@) =~= Seq::<
                (usize, u64),
            >::empty());
            assert(tr.pending@.last() == self.root);
            assert(pending_consulted(nodes, tr.pending@, box_hits@, prim_hits@) == full
                + pending_consulted(nodes, empty_stack, box_hits@, prim_hits@));
            assert(tr.offers@ + pending_consulted(nodes, tr.pending@, box_hits@, prim_hits@)
                =~= full);
        }
        while tr.pending.len() != 0
            invariant
                self.nodes@ == nodes,
                self.nodes@.len() >= 1,
                self.root as int == self.nodes@.len() - 1,
                arena_shape(nodes, prim_hits@.len()),
                box_hits@.len() == nodes.len(),
                tr.wf(*self),
                tr.inv(),
                tr.offers@ + pending_consulted(nodes, tr.pending@, box_hits@, prim_hits@)
                    == full,
            decreases pending_work(nodes, tr.pending@),
        {
            let ghost stack0 = tr.pending@;
            let ghost offers0 = tr.offers@;
            let node = tr.next_node().unwrap();
            let ghost rest = tr.pending@;
            proof {
                assert(stack0.last() == node);
                assert(stack0.drop_last() == rest);
                assert(node_shape(nodes, prim_hits@.len(), node as int));
            }
            let accepted = box_hits[node];
            let handed = tr.enter_node(self, node, accepted);
            let ghost c = consulted_hits(nodes, node as int, box_hits@, prim_hits@);
            match handed {
                Some(p) => {
                    proof {
                        assert(nodes[node as int].prim == Some(p));
                    }
                    match prim_hits[p] {
                        Some(k) => {
                            tr.offer(p, k);
                            proof {
                                assert(c =~= seq![(p, k)]);
                                assert(tr.offers@ + pending_consulted(
                                    nodes,
                                    rest,
                                    box_hits@,
                                    prim_hits@,
                                ) =~= offers0 + (c + pending_consulted(
                                    nodes,
                                    rest,
                                    box_hits@,
                                    prim_hits@,
                                )));
                            }
                        },
                        None => {
                            proof {
                                assert(c =~= Seq::<(usize, u64)>::empty());
                                assert(offers0 + pending_consulted(
                                    nodes,
                                    rest,
                                    box_hits@,
                                    prim_hits@,
                                ) =~= offers0 + (c + pending_consulted(
                                    nodes,
                                    rest,
                                    box_hits@,
                                    prim_hits@,
                                )));
                            }
                        },
                    }
                },
                None => {
                    proof {
                        let nd = nodes[node as int];
                        if !accepted {
                            assert(c =~= Seq::<(usize, u64)>::empty());
                            assert(offers0 + pending_consulted(nodes, rest, box_hits@, prim_hits@)
                                =~= offers0 + (c + pending_consulted(
                                nodes,
                                rest,
                                box_hits@,
                                prim_hits@,
                            )));
                        } else {
                            let l = nd.left->0;
                            let rt = nd.right->0;
                            let cl = consulted_hits(nodes, l as int, box_hits@, prim_hits@);
                            let cr = consulted_hits(nodes, rt as int, box_hits@, prim_hits@);
                            assert(c == cl + cr);
                            assert(tr.pending@ == rest.push(rt).push(l));
                            assert(tr.pending@.last() == l);
                            assert(tr.pending@.drop_last() =~= rest.push(rt));
                            assert(pending_consulted(nodes, rest.push(rt), box_hits@, prim_hits@)
                                == cr + pending_consulted(nodes, rest, box_hits@, prim_hits@))
                                by {
                                assert(rest.push(rt).last() == rt);
                                assert(rest.push(rt).drop_last() =~= rest);
                            }
                            assert(pending_consulted(nodes, tr.pending@, box_hits@, prim_hits@)
                                == cl + pending_consulted(
                                nodes,
                                rest.push(rt),
                                box_hits@,
                                prim_hits@,
                            ));
                            assert(offers0 + (cl + (cr + pending_consulted(
                                nodes,
                                rest,
                                box_hits@,
                                prim_hits@,
                            ))) =~= offers0 + ((cl + cr) + pending_consulted(
                                nodes,
                                rest,
                                box_hits@,
                                prim_hits@,
                            )));
                            // The popped node's work covers both children
                            // plus itself, so the pending work shrinks.
                            assert(subtree_size(nodes, node as int) == 1 + subtree_size(
                                nodes,
                                l as int,
                            ) + subtree_size(nodes, rt as int));
                            assert(pending_work(nodes, rest.push(rt)) == subtree_size(
                                nodes,
                                rt as int,
                            ) + pending_work(nodes, rest)) by {
                                assert(rest.push(rt).last() == rt);
                                assert(rest.push(rt).drop_last() =~= rest);
                            }
                            assert(pending_work(nodes, tr.pending@.drop_last()) == pending_work(
                                nodes,
                                rest.push(rt),
                            ));
                        }
                    }
                },
            }
        }
        proof {
            assert(pending_consulted(nodes, tr.pending@, box_hits@, prim_hits@) =~= Seq::<
                (usize, u64),
            >::empty());
            assert(tr.offers@ =~= full);
            lemma_driver_matches_traversal(nodes, self.root as int, box_hits@, prim_hits@);
        }
        tr.best
    }
}

/// The box outcomes are conservative for the primitive outcomes: a node
/// whose box test failed has no hit primitive anywhere in its subtree.
pub open spec fn conservative(
    nodes: Seq<BvhNode>,
    box_hits: Seq<bool>,
    prim_hits: Seq<Option<u64>>,
) -> bool {
    forall|j: int, k: int|
        0 <= j < nodes.len() && !box_hits[j] && 0 <= k < subtree_prims(nodes, j).len()
            ==> prim_hits[#[trigger] subtree_prims(nodes, j)[k] as int] is None
}

/// No two distinct primitives are hit at exactly the same distance.
pub open spec fn distinct_hit_keys(prim_hits: Seq<Option<u64>>) -> bool {
    forall|p: int, q: int|
        0 <= p < prim_hits.len() && 0 <= q < prim_hits.len() && p != q && #[trigger] prim_hits[p]
            is Some && #[trigger] prim_hits[q] is Some ==> prim_hits[p]->0 != prim_hits[q]->0
}

/// What the traversal's answer below node `i` means: `None` exactly when
/// every primitive of the subtree misses; otherwise a hit of a subtree
/// primitive no farther than any other hit in the subtree.
proof fn lemma_bvh_hit_char(
    nodes: Seq<BvhNode>,
    i: int,
    box_hits: Seq<bool>,
    prim_hits: Seq<Option<u64>>,
)
    requires
        arena_shape(nodes, prim_hits.len()),
        box_hits.len() == nodes.len(),
        0 <= i < nodes.len(),
        conservative(nodes, box_hits, prim_hits),
    ensures
        match bvh_hit_spec(nodes, i, box_hits, prim_hits) {
            None => forall|k: int|
                0 <= k < subtree_prims(nodes, i).len() ==> prim_hits[#[trigger] subtree_prims(
                    nodes,
                    i,
                )[k] as int] is None,
            Some(h) => (h.0 as int) < prim_hits.len() && prim_hits[h.0 as int] == Some(h.1)
                && forall|k: int|
                0 <= k < subtree_prims(nodes, i).len() && prim_hits[#[trigger] subtree_prims(
                    nodes,
                    i,
                )[k] as int] is Some ==> h.1 <= prim_hits[subtree_prims(nodes, i)[k] as int]->0,
        },
    decreases i,
{
    let sp = subtree_prims(nodes, i);
    let r = bvh_hit_spec(nodes, i, box_hits, prim_hits);
    assert(node_shape(nodes, prim_hits.len(), i));
    let nd = nodes[i];
    if !box_hits[i] {
        assert forall|k: int| 0 <= k < sp.len() implies prim_hits[#[trigger] sp[k] as int]
            is None by {}
    } else if nd.prim is Some {
        assert(sp =~= seq![nd.prim->0]);
    } else {
        let l = nd.left->0 as int;
        let rt = nd.right->0 as int;
        lemma_bvh_hit_char(nodes, l, box_hits, prim_hits);
        lemma_bvh_hit_char(nodes, rt, box_hits, prim_hits);
        let spl = subtree_prims(nodes, l);
        let spr = subtree_prims(nodes, rt);
        assert(sp == spl + spr);
        let rl = bvh_hit_spec(nodes, l, box_hits, prim_hits);
        let rr = bvh_hit_spec(nodes, rt, box_hits, prim_hits);
        assert(r == combine_hits(rl, rr));
        assert forall|k: int| 0 <= k < sp.len() implies (sp[k] == if k < spl.len() {
            spl[k]
        } else {
            spr[k - spl.len()]
        }) by {}
        match r {
            None => {
                assert forall|k: int| 0 <= k < sp.len() implies prim_hits[#[trigger] sp[k] as int]
                    is None by {
                    if k < spl.len() {
                        assert(prim_hits[spl[k] as int] is None);
                    } else {
                        assert(prim_hits[spr[k - spl.len()] as int] is None);
                    }
                }
            },
            Some(h) => {
                assert forall|k: int|
                    0 <= k < sp.len() && prim_hits[#[trigger] sp[k] as int] is Some implies h.1
                    <= prim_hits[sp[k] as int]->0 by {
                    if k < spl.len() {
                        assert(sp[k] == spl[k]);
                    } else {
                        assert(sp[k] == spr[k - spl.len()]);
                    }
                }
            },
        }
    }
}

/// What the linear scan's answer over `0 .. n` means: `None` exactly when
/// every primitive misses; otherwise a hit no farther than any other.
proof fn lemma_closest_char(prim_hits: Seq<Option<u64>>, n: int)
    requires
        0 <= n <= prim_hits.len(),
        n <= usize::MAX,
    ensures
        match closest_upto(prim_hits, n) {
            None => forall|q: int| 0 <= q < n ==> #[trigger] prim_hits[q] is None,
            Some(h) => (h.0 as int) < n && prim_hits[h.0 as int] == Some(h.1) && forall|q: int|
                0 <= q < n && #[trigger] prim_hits[q] is Some ==> h.1 <= prim_hits[q]->0,
        },
    decreases n,
{
    if n > 0 {
        lemma_closest_char(prim_hits, n - 1);
        let prev = closest_upto(prim_hits, n - 1);
        match closest_upto(prim_hits, n) {
            None => {
                assert forall|q: int| 0 <= q < n implies #[trigger] prim_hits[q] is None by {
                    if q < n - 1 {
                        assert(prev is None);
                    }
                }
            },
            Some(h) => {
                assert forall|q: int|
                    0 <= q < n && #[trigger] prim_hits[q] is Some implies h.1
                    <= prim_hits[q]->0 by {
                    if q < n - 1 {
                        match prev {
                            Some(b) => {},
                            None => {
                                assert(prim_hits[q] is None);
                            },
                        }
                    }
                }
            },
        }
    }
}

/// Traversal of a well-formed hierarchy agrees exactly with the linear
/// scan over all primitives — the same primitive and the same distance —
/// whenever the box outcomes are conservative and no two primitives are
/// hit at the same distance.
pub proof fn lemma_bvh_matches_linear(
    tree: BvhTree,
    boxes: Seq<crate::aabb::Aabb>,
    box_hits: Seq<bool>,
    prim_hits: Seq<Option<u64>>,
)
    requires
        tree.wf(boxes),
        box_hits.len() == tree.nodes@.len(),
        prim_hits.len() == boxes.len(),
        prim_hits.len() <= usize::MAX,
        conservative(tree.nodes@, box_hits, prim_hits),
        distinct_hit_keys(prim_hits),
    ensures
        bvh_hit_spec(tree.nodes@, tree.root as int, box_hits, prim_hits) == closest_spec(
            prim_hits,
        ),
{
    broadcast use vstd::seq_lib::group_to_multiset_ensures;

    let nodes = tree.nodes@;
    let root = tree.root as int;
    let n = prim_hits.len() as int;
    let sp = subtree_prims(nodes, root);
    assert(arena_shape(nodes, prim_hits.len())) by {
        assert forall|i: int| 0 <= i < nodes.len() implies node_shape(
            nodes,
            prim_hits.len(),
            i,
        ) by {
            assert(crate::bvh::node_wf(nodes, boxes, i));
        }
    }
    lemma_bvh_hit_char(nodes, root, box_hits, prim_hits);
    lemma_closest_char(prim_hits, n);
    let r1 = bvh_hit_spec(nodes, root, box_hits, prim_hits);
    let r2 = closest_spec(prim_hits);
    match (r1, r2) {
        (None, None) => {},
        (None, Some(h2)) => {
            assert(sp.to_multiset().count(h2.0) == 1);
            assert(sp.contains(h2.0));
            let k = sp.lemma_contains_to_index(h2.0);
            assert(prim_hits[sp[k] as int] is None);
            assert(false);
        },
        (Some(h1), None) => {
            assert(prim_hits[h1.0 as int] is Some);
            assert(false);
        },
        (Some(h1), Some(h2)) => {
            assert(sp.to_multiset().count(h2.0) == 1);
            assert(sp.contains(h2.0));
            let k = sp.lemma_contains_to_index(h2.0);
            assert(prim_hits[sp[k] as int] is Some);
            assert(h1.1 <= h2.1);
            assert(h2.1 <= h1.1);
            if h1.0 != h2.0 {
                assert(prim_hits[h1.0 as int]->0 != prim_hits[h2.0 as int]->0);
                assert(false);
            }
        },
    }
}

} // verus!
