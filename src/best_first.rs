//! Best-first search: a resumable enumeration of the stored points in
//! ascending distance from a query point.
use vstd::prelude::*;
use vstd::multiset::Multiset;
use crate::geometry::{Point, dist2, env_dist2, min_max_spec, lemma_dist2_bound};
use crate::branch_bound::min_max_dist_2;
use crate::node::{RTreeNode, ParentNode, env_of, seq_objects, seq_count, seq_wf, seq_bounded, node_bounded, lemma_wf_bounded, node_objects, lemma_seq_push, lemma_seq_concat, lemma_seq_member, lemma_seq_find, lemma_seq_remove, lemma_node_lower_bound, lemma_min_max_upper_bound};

verus! {

broadcast use vstd::multiset::group_multiset_axioms;

/// The key under which a node waits: the exact distance of a leaf, the
/// envelope distance of an inner node.
pub open spec fn node_key(n: RTreeNode, q: Point) -> int {
    match n {
        RTreeNode::Leaf(p) => dist2(p, q),
        RTreeNode::Parent(pn) => env_dist2(pn.envelope, q),
    }
}

/// The key of a bounded node bounds the distance of every point under it.
pub proof fn lemma_key_lower_bound(n: RTreeNode, o: Point, q: Point)
    requires
        node_bounded(n),
        node_objects(n).contains(o),
    ensures
        node_key(n, q) <= dist2(o, q),
{
    match n {
        RTreeNode::Leaf(p) => {},
        RTreeNode::Parent(pn) => {
            lemma_node_lower_bound(n, o, q);
        },
    }
}

/// One step of a ranked enumeration from the points `before` to the points
/// `after`: it ends only when nothing is left, and otherwise yields a point of
/// least distance to `q`, with that distance, and removes one copy of it.
pub open spec fn ranked_step(
    before: Multiset<Point>,
    q: Point,
    r: Option<(Point, u128)>,
    after: Multiset<Point>,
) -> bool {
    match r {
        None => before =~= Multiset::empty() && after =~= Multiset::empty(),
        Some((p, d)) => {
            &&& before.contains(p)
            &&& d == dist2(p, q)
            &&& forall|o: Point| #[trigger] before.contains(o) ==> d <= dist2(o, q)
            &&& after == before.remove(p)
        },
    }
}

/// `r` is a point of `m` nearest to `q`, and there is one exactly when `m`
/// is not empty.
pub open spec fn is_nearest(m: Multiset<Point>, q: Point, r: Option<Point>) -> bool {
    match r {
        None => m =~= Multiset::empty(),
        Some(p) => m.contains(p) && forall|o: Point| #[trigger] m.contains(o) ==> dist2(p, q) <= dist2(o, q),
    }
}

/// The position of the first least key.
pub open spec fn first_least(keys: Seq<int>) -> int
    decreases keys.len(),
{
    if keys.len() <= 1 {
        0
    } else {
        let k = first_least(keys.drop_last());
        if keys.last() < keys[k] {
            keys.len() - 1
        } else {
            k
        }
    }
}

pub proof fn lemma_first_least(keys: Seq<int>)
    requires
        keys.len() > 0,
    ensures
        0 <= first_least(keys) < keys.len(),
        forall|j: int| 0 <= j < keys.len() ==> keys[first_least(keys)] <= #[trigger] keys[j],
    decreases keys.len(),
{
    if keys.len() > 1 {
        lemma_first_least(keys.drop_last());
        let k = first_least(keys.drop_last());
        assert forall|j: int| 0 <= j < keys.len() implies keys[first_least(keys)] <= #[trigger] keys[j] by {
            if j < keys.len() - 1 {
                assert(keys.drop_last()[j] == keys[j]);
            }
        }
    }
}

/// The keys of a sequence of pending nodes.
pub open spec fn keys_of(pending: Seq<RTreeNode>, q: Point) -> Seq<int> {
    pending.map_values(|n: RTreeNode| node_key(n, q))
}

/// One step of the best-first enumeration, as a function of the pending nodes:
/// take the first node with the least key; an inner node is replaced by its
/// children, appended in order, and the step goes on; a leaf is yielded with
/// its squared distance. The second component is what is pending afterwards.
pub open spec fn ranked_next(pending: Seq<RTreeNode>, q: Point) -> (Option<(Point, u128)>, Seq<RTreeNode>)
    decreases seq_count(pending),
{
    if pending.len() == 0 {
        (None, pending)
    } else {
        let k = first_least(keys_of(pending, q));
        let rest = pending.remove(k);
        proof {
            lemma_first_least(keys_of(pending, q));
            lemma_seq_remove(pending, k);
        }
        match pending[k] {
            RTreeNode::Leaf(p) => (Some((p, dist2(p, q) as u128)), rest),
            RTreeNode::Parent(pn) => {
                proof {
                    lemma_seq_concat(rest, pn.children@);
                }
                ranked_next(rest + pn.children@, q)
            },
        }
    }
}

/// A pending node together with its key.
struct RTreeNodeDistanceWrapper<'a> {
    node: &'a RTreeNode,
    distance: u128,
}

/// Yields the points of a tree with their squared distances to a query point,
/// nearest first.
pub struct NearestNeighborDistanceIterator<'a> {
    nodes: Vec<RTreeNodeDistanceWrapper<'a>>,
    query_point: Point,
}

spec fn nodes_of<'a>(s: Seq<RTreeNodeDistanceWrapper<'a>>) -> Seq<RTreeNode> {
    s.map_values(|c: RTreeNodeDistanceWrapper<'a>| *c.node)
}

impl<'a> NearestNeighborDistanceIterator<'a> {
    /// The points that are still to come, with their multiplicities.
    pub closed spec fn remaining(&self) -> Multiset<Point> {
        seq_objects(nodes_of(self.nodes@))
    }

    /// The point whose neighbors are enumerated.
    pub closed spec fn query(&self) -> Point {
        self.query_point
    }

    /// The nodes that wait to be expanded or yielded, in the order in which
    /// they were pushed.
    pub closed spec fn pending(&self) -> Seq<RTreeNode> {
        nodes_of(self.nodes@)
    }

    /// Every pending node is bounded and waits under its key.
    pub closed spec fn inv(&self) -> bool {
        keyed(self.nodes@, self.query_point)
    }

    closed spec fn pending_count(&self) -> nat {
        seq_count(nodes_of(self.nodes@))
    }

    /// Starts an enumeration of every point under `root`.
    pub fn new(root: &'a ParentNode, query_point: Point) -> (r: Self)
        requires
            seq_bounded(root.children@),
        ensures
            r.inv(),
            r.query() == query_point,
            r.pending() == root.children@,
            r.remaining() == seq_objects(root.children@),
    {
        let mut result = NearestNeighborDistanceIterator { nodes: Vec::new(), query_point };
        proof {
            assert(nodes_of(result.nodes@) =~= Seq::<RTreeNode>::empty());
        }
        result.extend_heap(root.children.as_slice());
        proof {
            assert(Seq::<RTreeNode>::empty() + root.children@ =~= root.children@);
            assert(seq_objects(Seq::<RTreeNode>::empty()).add(seq_objects(root.children@))
                =~= seq_objects(root.children@));
        }
        result
    }

    /// Puts each of `children` into the pending set under its key.
    fn extend_heap(&mut self, children: &'a [RTreeNode])
        requires
            old(self).inv(),
            seq_bounded(children@),
        ensures
            final(self).inv(),
            final(self).query() == old(self).query(),
            final(self).pending() == old(self).pending() + children@,
            final(self).remaining() == old(self).remaining().add(seq_objects(children@)),
            final(self).pending_count() == old(self).pending_count() + seq_count(children@),
    {
        let ghost old_nodes = nodes_of(self.nodes@);
        let mut i: usize = 0;
        while i < children.len()
            invariant
                self.inv(),
                self.query_point == old(self).query_point,
                seq_bounded(children@),
                i <= children@.len(),
                nodes_of(self.nodes@) == old_nodes + children@.subrange(0, i as int),
                seq_objects(nodes_of(self.nodes@)) == seq_objects(old_nodes).add(
                    seq_objects(children@.subrange(0, i as int)),
                ),
                seq_count(nodes_of(self.nodes@)) == seq_count(old_nodes) + seq_count(
                    children@.subrange(0, i as int),
                ),
            decreases children@.len() - i,
        {
            let child: &'a RTreeNode = &children[i];
            let distance = match child {
                RTreeNode::Parent(data) => data.envelope.distance_2(&self.query_point),
                RTreeNode::Leaf(t) => t.distance_2(&self.query_point),
            };
            let ghost before = self.nodes@;
            self.nodes.push(RTreeNodeDistanceWrapper { node: child, distance });
            proof {
                lemma_seq_member(children@, i as int);
                assert(nodes_of(self.nodes@) =~= nodes_of(before).push(*child));
                lemma_seq_push(nodes_of(before), *child);
                assert(children@.subrange(0, i + 1) =~= children@.subrange(0, i as int).push(*child));
                lemma_seq_push(children@.subrange(0, i as int), *child);
                assert(nodes_of(self.nodes@) =~= old_nodes + children@.subrange(0, i + 1));
                assert forall|j: int| 0 <= j < self.nodes@.len() implies #[trigger] self.nodes@[j].distance
                    == node_key(*self.nodes@[j].node, self.query_point) by {
                    if j < before.len() {
                        assert(self.nodes@[j] == before[j]);
                    }
                }
            }
            i = i + 1;
        }
        proof {
            assert(children@.subrange(0, children@.len() as int) =~= children@);
        }
    }

    /// The nearest of the remaining points and its squared distance, or `None`
    /// once every point has been produced.
    pub fn next(&mut self) -> (r: Option<(Point, u128)>)
        requires
            old(self).inv(),
        ensures
            final(self).inv(),
            final(self).query() == old(self).query(),
            (r, final(self).pending()) == ranked_next(old(self).pending(), old(self).query()),
            ranked_step(old(self).remaining(), old(self).query(), r, final(self).remaining()),
    {
        loop
            invariant
                self.inv(),
                self.query_point == old(self).query_point,
                self.remaining() == old(self).remaining(),
                ranked_next(self.pending(), self.query_point) == ranked_next(old(self).pending(), self.query_point),
            decreases self.pending_count(),
        {
            if self.nodes.len() == 0 {
                proof {
                    assert(nodes_of(self.nodes@) =~= Seq::<RTreeNode>::empty());
                }
                return None;
            }
            let k = min_index(&self.nodes);
            let ghost s = nodes_of(self.nodes@);
            let ghost before = self.nodes@;
            proof {
                assert(distances_of(before) =~= keys_of(s, self.query_point));
            }
            let current = self.nodes.remove(k);
            proof {
                assert(nodes_of(self.nodes@) =~= s.remove(k as int));
                assert(s[k as int] == *current.node);
                lemma_seq_remove(s, k as int);
                lemma_seq_member(s, k as int);
                assert forall|j: int| 0 <= j < self.nodes@.len() implies #[trigger] self.nodes@[j].distance
                    == node_key(*self.nodes@[j].node, self.query_point) by {
                    if j < k {
                        assert(self.nodes@[j] == before[j]);
                    } else {
                        assert(self.nodes@[j] == before[j + 1]);
                    }
                }
            }
            match current.node {
                RTreeNode::Parent(data) => {
                    self.extend_heap(data.children.as_slice());
                },
                RTreeNode::Leaf(t) => {
                    proof {
                        let q = self.query_point;
                        assert forall|o: Point| #[trigger] old(self).remaining().contains(o) implies current.distance
                            <= dist2(o, q) by {
                            lemma_seq_find(s, o);
                            let i = choose|i: int| 0 <= i < s.len() && #[trigger] node_objects(s[i]).contains(o);
                            lemma_seq_member(s, i);
                            lemma_key_lower_bound(s[i], o, q);
                            assert(before[i].distance == node_key(s[i], q));
                        }
                        assert(node_objects(*current.node) =~= Multiset::singleton(*t));
                        assert(self.remaining() =~= old(self).remaining().remove(*t));
                    }
                    return Some((*t, current.distance));
                },
            }
        }
    }
}

/// Yields the points of a tree nearest first, without their distances.
pub struct NearestNeighborIterator<'a> {
    iter: NearestNeighborDistanceIterator<'a>,
}

impl<'a> NearestNeighborIterator<'a> {
    /// The points that are still to come, with their multiplicities.
    pub closed spec fn remaining(&self) -> Multiset<Point> {
        self.iter.remaining()
    }

    /// The nodes that wait to be expanded or yielded.
    pub closed spec fn pending(&self) -> Seq<RTreeNode> {
        self.iter.pending()
    }

    /// The point whose neighbors are enumerated.
    pub closed spec fn query(&self) -> Point {
        self.iter.query()
    }

    pub closed spec fn inv(&self) -> bool {
        self.iter.inv()
    }

    /// Starts an enumeration of every point under `root`.
    pub fn new(root: &'a ParentNode, query_point: Point) -> (r: Self)
        requires
            seq_bounded(root.children@),
        ensures
            r.inv(),
            r.query() == query_point,
            r.pending() == root.children@,
            r.remaining() == seq_objects(root.children@),
    {
        NearestNeighborIterator { iter: NearestNeighborDistanceIterator::new(root, query_point) }
    }

    /// The nearest of the remaining points, or `None` once every point has
    /// been produced: the point that the enumeration with distances yields
    /// from the same state.
    pub fn next(&mut self) -> (r: Option<Point>)
        requires
            old(self).inv(),
        ensures
            final(self).inv(),
            final(self).query() == old(self).query(),
            r == (match ranked_next(old(self).pending(), old(self).query()).0 {
                Some((p, _)) => Some(p),
                None => None,
            }),
            final(self).pending() == ranked_next(old(self).pending(), old(self).query()).1,
            ranked_step(
                old(self).remaining(),
                old(self).query(),
                match r {
                    Some(p) => Some((p, dist2(p, old(self).query()) as u128)),
                    None => None,
                },
                final(self).remaining(),
            ),
    {
        match self.iter.next() {
            Some((t, _distance)) => Some(t),
            None => None,
        }
    }
}

/// Every pending node is bounded and waits under its key.
spec fn keyed<'a>(nodes: Seq<RTreeNodeDistanceWrapper<'a>>, q: Point) -> bool {
    &&& seq_bounded(nodes_of(nodes))
    &&& forall|i: int| 0 <= i < nodes.len() ==> #[trigger] nodes[i].distance == node_key(*nodes[i].node, q)
}

/// The index of a pending node with the least key.
fn min_index<'a>(nodes: &Vec<RTreeNodeDistanceWrapper<'a>>) -> (r: usize)
    requires
        nodes@.len() > 0,
    ensures
        r < nodes@.len(),
        forall|j: int| 0 <= j < nodes@.len() ==> nodes@[r as int].distance <= #[trigger] nodes@[j].distance,
        r == first_least(distances_of(nodes@)),
{
    let ghost keys = distances_of(nodes@);
    let mut best: usize = 0;
    let mut i: usize = 1;
    proof {
        assert(keys.subrange(0, 1).len() == 1);
    }
    while i < nodes.len()
        invariant
            keys == distances_of(nodes@),
            best < i <= nodes@.len(),
            forall|j: int| 0 <= j < i ==> nodes@[best as int].distance <= #[trigger] nodes@[j].distance,
            best == first_least(keys.subrange(0, i as int)),
        decreases nodes@.len() - i,
    {
        proof {
            let t = keys.subrange(0, i + 1);
            assert(t.drop_last() =~= keys.subrange(0, i as int));
            assert(t.last() == nodes@[i as int].distance);
            assert(t[best as int] == nodes@[best as int].distance);
        }
        if nodes[i].distance < nodes[best].distance {
            best = i;
        }
        i = i + 1;
    }
    proof {
        assert(keys.subrange(0, nodes@.len() as int) =~= keys);
    }
    best
}

spec fn distances_of<'a>(s: Seq<RTreeNodeDistanceWrapper<'a>>) -> Seq<int> {
    s.map_values(|c: RTreeNodeDistanceWrapper<'a>| c.distance as int)
}

/// Pushes the children of `node` that may hold a point within
/// `*min_max_distance`, and lowers that bound to the least min-max distance
/// of the children pushed.
fn extend_heap_bounded<'a>(
    nodes: &mut Vec<RTreeNodeDistanceWrapper<'a>>,
    node: &'a ParentNode,
    query_point: Point,
    min_max_distance: &mut u128,
)
    requires
        seq_wf(node.children@),
        seq_wf(nodes_of(old(nodes)@)),
        keyed(old(nodes)@, query_point),
    ensures
        seq_wf(nodes_of(final(nodes)@)),
        keyed(final(nodes)@, query_point),
        *final(min_max_distance) <= *old(min_max_distance),
        seq_objects(nodes_of(old(nodes)@)).subset_of(seq_objects(nodes_of(final(nodes)@))),
        forall|o: Point| #[trigger] seq_objects(nodes_of(final(nodes)@)).contains(o) ==> seq_objects(
            nodes_of(old(nodes)@),
        ).contains(o) || seq_objects(node.children@).contains(o),
        seq_count(nodes_of(final(nodes)@)) <= seq_count(nodes_of(old(nodes)@)) + seq_count(node.children@),
        forall|o: Point| #[trigger] seq_objects(node.children@).contains(o) ==> seq_objects(
            nodes_of(final(nodes)@),
        ).contains(o) || dist2(o, query_point) > *final(min_max_distance),
        *final(min_max_distance) == *old(min_max_distance) || exists|o: Point| #[trigger]
            seq_objects(nodes_of(final(nodes)@)).contains(o) && dist2(o, query_point)
                <= *final(min_max_distance),
{
    let ghost q = query_point;
    let ghost cs = node.children@;
    let ghost start = nodes@;
    let ghost start_mm = *min_max_distance;
    let mut i: usize = 0;
    while i < node.children.len()
        invariant
            q == query_point,
            cs == node.children@,
            seq_wf(cs),
            start == old(nodes)@,
            start_mm == *old(min_max_distance),
            i <= cs.len(),
            seq_wf(nodes_of(nodes@)),
            keyed(nodes@, q),
            *min_max_distance <= start_mm,
            seq_objects(nodes_of(start)).subset_of(seq_objects(nodes_of(nodes@))),
            forall|o: Point| #[trigger] seq_objects(nodes_of(nodes@)).contains(o) ==> seq_objects(
                nodes_of(start),
            ).contains(o) || seq_objects(cs.subrange(0, i as int)).contains(o),
            seq_count(nodes_of(nodes@)) <= seq_count(nodes_of(start)) + seq_count(cs.subrange(0, i as int)),
            forall|j: int, o: Point|
                0 <= j < i && #[trigger] node_objects(cs[j]).contains(o) ==> seq_objects(nodes_of(nodes@)).contains(o)
                    || dist2(o, q) > *min_max_distance,
            *min_max_distance == start_mm || exists|o: Point| #[trigger]
                seq_objects(nodes_of(nodes@)).contains(o) && dist2(o, q) <= *min_max_distance,
        decreases cs.len() - i,
    {
        let child: &'a RTreeNode = &node.children[i];
        proof {
            lemma_seq_member(cs, i as int);
            lemma_wf_bounded(*child);
            assert(cs.subrange(0, i + 1) =~= cs.subrange(0, i as int).push(*child));
            lemma_seq_push(cs.subrange(0, i as int), *child);
        }
        let distance_if_less_or_equal = match child {
            RTreeNode::Parent(data) => {
                let distance = data.envelope.distance_2(&query_point);
                if distance <= *min_max_distance {
                    Some(distance)
                } else {
                    proof {
                        assert forall|o: Point| #[trigger] node_objects(*child).contains(o) implies dist2(o, q)
                            > *min_max_distance by {
                            lemma_node_lower_bound(*child, o, q);
                        }
                    }
                    None
                }
            },
            RTreeNode::Leaf(t) => t.distance_2_if_less_or_equal(&query_point, *min_max_distance),
        };
        let ghost before = nodes@;
        let ghost before_mm = *min_max_distance;
        if let Some(distance) = distance_if_less_or_equal {
            let new_min = min_max_dist_2(&child.envelope(), &query_point);
            if new_min < *min_max_distance {
                *min_max_distance = new_min;
            }
            nodes.push(RTreeNodeDistanceWrapper { node: child, distance });
            proof {
                assert(nodes_of(nodes@) =~= nodes_of(before).push(*child));
                lemma_seq_push(nodes_of(before), *child);
                let s = nodes_of(nodes@);
                assert(s[s.len() - 1] == *child);
                lemma_seq_member(s, s.len() - 1);
                assert forall|k: int| 0 <= k < nodes@.len() implies #[trigger] nodes@[k].distance == node_key(
                    *nodes@[k].node,
                    q,
                ) by {
                    if k < before.len() {
                        assert(nodes@[k] == before[k]);
                    }
                }
                assert forall|o: Point| #[trigger] seq_objects(nodes_of(before)).contains(o) implies seq_objects(
                    nodes_of(nodes@),
                ).contains(o) by {}
                assert forall|j: int, o: Point|
                    0 <= j < i + 1 && #[trigger] node_objects(cs[j]).contains(o) implies seq_objects(
                        nodes_of(nodes@),
                    ).contains(o) || dist2(o, q) > *min_max_distance by {
                    if j < i {
                        assert(seq_objects(nodes_of(before)).contains(o) || dist2(o, q) > before_mm);
                    } else {
                        assert(node_objects(s[s.len() - 1]).contains(o));
                    }
                }
                assert forall|o: Point| #[trigger] seq_objects(nodes_of(nodes@)).contains(o) implies seq_objects(
                    nodes_of(start),
                ).contains(o) || seq_objects(cs.subrange(0, i + 1)).contains(o) by {
                    if !seq_objects(nodes_of(before)).contains(o) {
                        assert(node_objects(*child).contains(o));
                    }
                }
                if new_min < before_mm {
                    lemma_min_max_upper_bound(*child, q);
                    let w = choose|w: Point| #[trigger] node_objects(*child).contains(w) && dist2(w, q)
                        <= min_max_spec(env_of(*child), q);
                    assert(seq_objects(nodes_of(nodes@)).contains(w));
                } else if before_mm != start_mm {
                    let w = choose|w: Point| #[trigger] seq_objects(nodes_of(before)).contains(w) && dist2(w, q)
                        <= before_mm;
                    assert(seq_objects(nodes_of(nodes@)).contains(w));
                }
            }
        } else {
            proof {
                lemma_seq_push(cs.subrange(0, i as int), *child);
                assert forall|j: int, o: Point|
                    0 <= j < i + 1 && #[trigger] node_objects(cs[j]).contains(o) implies seq_objects(
                        nodes_of(nodes@),
                    ).contains(o) || dist2(o, q) > *min_max_distance by {
                    if j == i {
                        assert(node_objects(*child).contains(o));
                    }
                }
                assert forall|o: Point| #[trigger] seq_objects(nodes_of(nodes@)).contains(o) implies seq_objects(
                    nodes_of(start),
                ).contains(o) || seq_objects(cs.subrange(0, i + 1)).contains(o) by {
                    if !seq_objects(nodes_of(start)).contains(o) {
                        assert(seq_objects(cs.subrange(0, i as int)).contains(o));
                    }
                }
            }
        }
        i = i + 1;
    }
    proof {
        assert(cs.subrange(0, cs.len() as int) =~= cs);
        assert forall|o: Point| #[trigger] seq_objects(cs).contains(o) implies seq_objects(nodes_of(nodes@)).contains(o)
            || dist2(o, q) > *min_max_distance by {
            lemma_seq_find(cs, o);
        }
    }
}

/// The point under `node` nearest to `query_point`, or `None` when there is
/// none. Candidates are taken best first; a child is pushed only while it may
/// hold a point within the least min-max distance seen so far.
pub fn nearest_neighbor(node: &ParentNode, query_point: Point) -> (r: Option<Point>)
    requires
        seq_wf(node.children@),
    ensures
        is_nearest(seq_objects(node.children@), query_point, r),
{
    let ghost q = query_point;
    let ghost all = seq_objects(node.children@);
    let mut smallest_min_max: u128 = u128::MAX;
    let mut nodes: Vec<RTreeNodeDistanceWrapper> = Vec::new();
    proof {
        assert(nodes_of(nodes@) =~= Seq::<RTreeNode>::empty());
    }
    extend_heap_bounded(&mut nodes, node, query_point, &mut smallest_min_max);
    loop
        invariant
            q == query_point,
            all == seq_objects(node.children@),
            seq_wf(nodes_of(nodes@)),
            keyed(nodes@, q),
            forall|o: Point| #[trigger] seq_objects(nodes_of(nodes@)).contains(o) ==> all.contains(o),
            forall|o: Point| #[trigger] all.contains(o) ==> seq_objects(nodes_of(nodes@)).contains(o) || dist2(o, q)
                > smallest_min_max,
            smallest_min_max == u128::MAX || exists|o: Point| #[trigger]
                seq_objects(nodes_of(nodes@)).contains(o) && dist2(o, q) <= smallest_min_max,
        decreases seq_count(nodes_of(nodes@)),
    {
        if nodes.len() == 0 {
            proof {
                assert(nodes_of(nodes@) =~= Seq::<RTreeNode>::empty());
                assert forall|o: Point| all.count(o) == 0 by {
                    if all.contains(o) {
                        lemma_dist2_bound(o, q);
                    }
                }
                assert(all =~= Multiset::empty());
            }
            return None;
        }
        let k = min_index(&nodes);
        let ghost s = nodes_of(nodes@);
        let ghost before = nodes@;
        let current = nodes.remove(k);
        proof {
            assert(nodes_of(nodes@) =~= s.remove(k as int));
            assert(s[k as int] == *current.node);
            lemma_seq_remove(s, k as int);
            lemma_seq_member(s, k as int);
            assert forall|j: int| 0 <= j < nodes@.len() implies #[trigger] nodes@[j].distance == node_key(
                *nodes@[j].node,
                q,
            ) by {
                if j < k {
                    assert(nodes@[j] == before[j]);
                } else {
                    assert(nodes@[j] == before[j + 1]);
                }
            }
        }
        match current.node {
            RTreeNode::Parent(data) => {
                let ghost mid = nodes@;
                let ghost mid_mm = smallest_min_max;
                extend_heap_bounded(&mut nodes, data, query_point, &mut smallest_min_max);
                proof {
                    assert forall|o: Point| #[trigger] seq_objects(nodes_of(nodes@)).contains(o) implies all.contains(o) by {
                        if seq_objects(nodes_of(mid)).contains(o) {
                            assert(seq_objects(s).contains(o));
                        } else {
                            assert(seq_objects(data.children@).contains(o));
                            assert(node_objects(s[k as int]).contains(o));
                            assert(seq_objects(s).contains(o));
                        }
                    }
                    assert forall|o: Point| #[trigger] all.contains(o) implies seq_objects(nodes_of(nodes@)).contains(o)
                        || dist2(o, q) > smallest_min_max by {
                        if seq_objects(s).contains(o) && !seq_objects(nodes_of(mid)).contains(o) {
                            assert(seq_objects(data.children@).contains(o));
                        }
                        if seq_objects(nodes_of(mid)).contains(o) {
                            assert(seq_objects(nodes_of(nodes@)).contains(o));
                        }
                    }
                    if smallest_min_max == mid_mm && mid_mm != u128::MAX {
                        let w = choose|w: Point| #[trigger] seq_objects(s).contains(w) && dist2(w, q) <= mid_mm;
                        if seq_objects(nodes_of(mid)).contains(w) {
                            assert(seq_objects(nodes_of(nodes@)).contains(w));
                        } else {
                            assert(seq_objects(data.children@).contains(w));
                        }
                    }
                }
            },
            RTreeNode::Leaf(t) => {
                proof {
                    assert(node_objects(*current.node).contains(*t));
                    assert forall|o: Point| #[trigger] seq_objects(s).contains(o) implies current.distance <= dist2(o, q) by {
                        lemma_seq_find(s, o);
                        let i = choose|i: int| 0 <= i < s.len() && #[trigger] node_objects(s[i]).contains(o);
                        lemma_seq_member(s, i);
                        lemma_key_lower_bound(s[i], o, q);
                        assert(before[i].distance == node_key(s[i], q));
                    }
                    assert forall|o: Point| #[trigger] all.contains(o) implies dist2(*t, q) <= dist2(o, q) by {
                        if !seq_objects(s).contains(o) {
                            // `o` was pruned, so a pending point lies within the bound,
                            // and `t` is no farther than that one.
                            lemma_dist2_bound(o, q);
                            let w = choose|w: Point| #[trigger] seq_objects(s).contains(w) && dist2(w, q)
                                <= smallest_min_max;
                        }
                    }
                    assert(seq_objects(s).contains(*t));
                }
                return Some(*t);
            },
        }
    }
}

} // verus!
