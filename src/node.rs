//! The nodes of an R-tree: leaves that hold points and parents that hold
//! children under a common envelope.
use vstd::prelude::*;
use vstd::multiset::Multiset;
use crate::geometry::{Point, Envelope, env_contains, valid_envelope, dist2, env_dist2, min_max_spec, near_far, lemma_min_max_witness, lemma_env_dist_lower_bound};

verus! {

broadcast use vstd::multiset::group_multiset_axioms;

/// A node of the tree: a stored point, or an inner node.
pub enum RTreeNode {
    Leaf(Point),
    Parent(ParentNode),
}

/// An inner node: its children and the envelope that bounds them.
pub struct ParentNode {
    pub children: Vec<RTreeNode>,
    pub envelope: Envelope,
}

/// The envelope of a node: a leaf's is the point itself.
pub open spec fn env_of(n: RTreeNode) -> Envelope {
    match n {
        RTreeNode::Leaf(p) => Envelope { lower: p, upper: p },
        RTreeNode::Parent(pn) => pn.envelope,
    }
}

/// The points stored under a sequence of nodes, with their multiplicities.
pub open spec fn seq_objects(s: Seq<RTreeNode>) -> Multiset<Point>
    decreases s,
{
    if s.len() == 0 {
        Multiset::empty()
    } else {
        let last = match s.last() {
            RTreeNode::Leaf(p) => Multiset::singleton(p),
            RTreeNode::Parent(pn) => seq_objects(pn.children@),
        };
        seq_objects(s.drop_last()).add(last)
    }
}

/// The points stored under one node.
pub open spec fn node_objects(n: RTreeNode) -> Multiset<Point> {
    match n {
        RTreeNode::Leaf(p) => Multiset::singleton(p),
        RTreeNode::Parent(pn) => seq_objects(pn.children@),
    }
}

/// The number of nodes, leaves and inner nodes, in a sequence of subtrees.
pub open spec fn seq_count(s: Seq<RTreeNode>) -> nat
    decreases s,
{
    if s.len() == 0 {
        0
    } else {
        let last = match s.last() {
            RTreeNode::Leaf(_) => 1,
            RTreeNode::Parent(pn) => 1 + seq_count(pn.children@),
        };
        seq_count(s.drop_last()) + last
    }
}

pub open spec fn node_count(n: RTreeNode) -> nat {
    match n {
        RTreeNode::Leaf(_) => 1,
        RTreeNode::Parent(pn) => 1 + seq_count(pn.children@),
    }
}

/// The envelope holds the envelope of every child.
pub open spec fn encloses(e: Envelope, cs: Seq<RTreeNode>) -> bool {
    forall|i: int|
        0 <= i < cs.len() ==> e.lower.x <= #[trigger] env_of(cs[i]).lower.x && env_of(cs[i]).upper.x
            <= e.upper.x && e.lower.y <= env_of(cs[i]).lower.y && env_of(cs[i]).upper.y <= e.upper.y
}

/// Every inner node in the sequence of subtrees has an envelope that holds
/// the envelopes of its children, so that it holds every point below it.
pub open spec fn seq_bounded(s: Seq<RTreeNode>) -> bool
    decreases s,
{
    if s.len() == 0 {
        true
    } else {
        let last_ok = match s.last() {
            RTreeNode::Leaf(_) => true,
            RTreeNode::Parent(pn) => encloses(pn.envelope, pn.children@) && seq_bounded(pn.children@),
        };
        seq_bounded(s.drop_last()) && last_ok
    }
}

pub open spec fn node_bounded(n: RTreeNode) -> bool {
    match n {
        RTreeNode::Leaf(_) => true,
        RTreeNode::Parent(pn) => encloses(pn.envelope, pn.children@) && seq_bounded(pn.children@),
    }
}

/// The envelope bounds every child and touches each of its four sides with
/// the envelope of some child.
pub open spec fn tight(e: Envelope, cs: Seq<RTreeNode>) -> bool {
    &&& valid_envelope(e)
    &&& encloses(e, cs)
    &&& exists|i: int| 0 <= i < cs.len() && #[trigger] env_of(cs[i]).lower.x == e.lower.x
    &&& exists|i: int| 0 <= i < cs.len() && #[trigger] env_of(cs[i]).upper.x == e.upper.x
    &&& exists|i: int| 0 <= i < cs.len() && #[trigger] env_of(cs[i]).lower.y == e.lower.y
    &&& exists|i: int| 0 <= i < cs.len() && #[trigger] env_of(cs[i]).upper.y == e.upper.y
}

/// Every inner node in the sequence of subtrees has children and an envelope
/// that is exactly their bounding box.
pub open spec fn seq_wf(s: Seq<RTreeNode>) -> bool
    decreases s,
{
    if s.len() == 0 {
        true
    } else {
        let last_ok = match s.last() {
            RTreeNode::Leaf(_) => true,
            RTreeNode::Parent(pn) => pn.children@.len() > 0 && tight(pn.envelope, pn.children@)
                && seq_wf(pn.children@),
        };
        seq_wf(s.drop_last()) && last_ok
    }
}

pub open spec fn node_wf(n: RTreeNode) -> bool {
    match n {
        RTreeNode::Leaf(_) => true,
        RTreeNode::Parent(pn) => pn.children@.len() > 0 && tight(pn.envelope, pn.children@)
            && seq_wf(pn.children@),
    }
}

impl RTreeNode {
    /// The envelope of this node.
    pub fn envelope(&self) -> (r: Envelope)
        ensures
            r == env_of(*self),
    {
        match self {
            RTreeNode::Leaf(p) => p.envelope(),
            RTreeNode::Parent(pn) => pn.envelope,
        }
    }
}

impl ParentNode {
    /// An inner node over `children`, under the bounding box of their
    /// envelopes; a node without children gets the envelope of the origin.
    pub fn new(children: Vec<RTreeNode>) -> (r: ParentNode)
        requires
            seq_wf(children@),
        ensures
            r.children@ == children@,
            seq_wf(r.children@),
            seq_bounded(r.children@),
            children@.len() > 0 ==> node_wf(RTreeNode::Parent(r)),
            children@.len() == 0 ==> r.envelope == (Envelope { lower: Point { x: 0, y: 0 }, upper: Point { x: 0, y: 0 } }),
    {
        proof {
            lemma_seq_wf_bounded(children@);
        }
        if children.len() == 0 {
            let origin = Point::new(0, 0);
            return ParentNode { children, envelope: origin.envelope() };
        }
        let mut envelope = children[0].envelope();
        proof {
            lemma_seq_member(children@, 0);
            lemma_contained_envelope(children@[0]);
            assert(children@.subrange(0, 1)[0] == children@[0]);
        }
        let mut i: usize = 1;
        while i < children.len()
            invariant
                1 <= i <= children@.len(),
                seq_wf(children@),
                tight(envelope, children@.subrange(0, i as int)),
            decreases children@.len() - i,
        {
            let e = children[i].envelope();
            let ghost prev = envelope;
            let ghost cs = children@.subrange(0, i as int);
            let ghost next = children@.subrange(0, i + 1);
            proof {
                lemma_seq_member(children@, i as int);
                lemma_contained_envelope(children@[i as int]);
            }
            envelope = envelope.merged(&e);
            proof {
                assert forall|j: int| 0 <= j < next.len() implies envelope.lower.x <= #[trigger] env_of(next[j]).lower.x
                    && env_of(next[j]).upper.x <= envelope.upper.x && envelope.lower.y <= env_of(next[j]).lower.y
                    && env_of(next[j]).upper.y <= envelope.upper.y by {
                    if j < i {
                        assert(next[j] == cs[j]);
                        assert(encloses(prev, cs));
                        assert(prev.lower.x <= env_of(cs[j]).lower.x);
                    }
                }
                let w0 = choose|j: int| 0 <= j < cs.len() && #[trigger] env_of(cs[j]).lower.x == prev.lower.x;
                let w1 = choose|j: int| 0 <= j < cs.len() && #[trigger] env_of(cs[j]).upper.x == prev.upper.x;
                let w2 = choose|j: int| 0 <= j < cs.len() && #[trigger] env_of(cs[j]).lower.y == prev.lower.y;
                let w3 = choose|j: int| 0 <= j < cs.len() && #[trigger] env_of(cs[j]).upper.y == prev.upper.y;
                assert(next[w0] == cs[w0] && next[w1] == cs[w1] && next[w2] == cs[w2] && next[w3] == cs[w3]);
                assert(next[i as int] == children@[i as int]);
            }
            i = i + 1;
        }
        proof {
            assert(children@.subrange(0, children@.len() as int) =~= children@);
        }
        ParentNode { children, envelope }
    }
}

/// The envelope of a well-formed node is valid.
pub proof fn lemma_contained_envelope(n: RTreeNode)
    requires
        node_wf(n),
    ensures
        valid_envelope(env_of(n)),
{
}

/// Whether `p` lies on side `f` of `e` (0: left, 1: right, 2: bottom, 3: top).
pub open spec fn on_side(e: Envelope, p: Point, f: int) -> bool {
    if f == 0 {
        p.x == e.lower.x
    } else if f == 1 {
        p.x == e.upper.x
    } else if f == 2 {
        p.y == e.lower.y
    } else {
        p.y == e.upper.y
    }
}

pub proof fn lemma_seq_push(s: Seq<RTreeNode>, n: RTreeNode)
    ensures
        seq_objects(s.push(n)) == seq_objects(s).add(node_objects(n)),
        seq_count(s.push(n)) == seq_count(s) + node_count(n),
        seq_wf(s.push(n)) == (seq_wf(s) && node_wf(n)),
        seq_bounded(s.push(n)) == (seq_bounded(s) && node_bounded(n)),
{
    assert(s.push(n).drop_last() =~= s);
}

pub proof fn lemma_seq_concat(a: Seq<RTreeNode>, b: Seq<RTreeNode>)
    ensures
        seq_objects(a + b) == seq_objects(a).add(seq_objects(b)),
        seq_count(a + b) == seq_count(a) + seq_count(b),
        seq_wf(a + b) == (seq_wf(a) && seq_wf(b)),
        seq_bounded(a + b) == (seq_bounded(a) && seq_bounded(b)),
    decreases b.len(),
{
    if b.len() == 0 {
        assert(a + b =~= a);
        assert(seq_objects(a).add(seq_objects(b)) =~= seq_objects(a));
    } else {
        lemma_seq_concat(a, b.drop_last());
        assert((a + b).drop_last() =~= a + b.drop_last());
        assert((a + b).last() == b.last());
        assert(seq_objects(a + b) =~= seq_objects(a).add(seq_objects(b)));
    }
}

pub proof fn lemma_seq_member(s: Seq<RTreeNode>, i: int)
    requires
        0 <= i < s.len(),
    ensures
        node_objects(s[i]).subset_of(seq_objects(s)),
        node_count(s[i]) <= seq_count(s),
        seq_wf(s) ==> node_wf(s[i]),
        seq_bounded(s) ==> node_bounded(s[i]),
    decreases s.len(),
{
    if i < s.len() - 1 {
        lemma_seq_member(s.drop_last(), i);
    }
}

pub proof fn lemma_seq_find(s: Seq<RTreeNode>, o: Point)
    requires
        seq_objects(s).contains(o),
    ensures
        exists|i: int| 0 <= i < s.len() && #[trigger] node_objects(s[i]).contains(o),
    decreases s.len(),
{
    if node_objects(s.last()).contains(o) {
        assert(node_objects(s[s.len() - 1]).contains(o));
    } else {
        lemma_seq_find(s.drop_last(), o);
        let i = choose|i: int| 0 <= i < s.drop_last().len() && #[trigger] node_objects(s.drop_last()[i]).contains(o);
        assert(node_objects(s[i]).contains(o));
    }
}

pub proof fn lemma_seq_remove(s: Seq<RTreeNode>, k: int)
    requires
        0 <= k < s.len(),
    ensures
        seq_objects(s) == seq_objects(s.remove(k)).add(node_objects(s[k])),
        seq_count(s) == seq_count(s.remove(k)) + node_count(s[k]),
        seq_wf(s) ==> seq_wf(s.remove(k)),
        seq_bounded(s) ==> seq_bounded(s.remove(k)),
    decreases s.len(),
{
    if k == s.len() - 1 {
        assert(s.remove(k) =~= s.drop_last());
    } else {
        let t = s.drop_last();
        lemma_seq_remove(t, k);
        assert(s.remove(k) =~= t.remove(k).push(s.last()));
        lemma_seq_push(t.remove(k), s.last());
        assert(seq_objects(s.remove(k)) =~= seq_objects(t.remove(k)).add(node_objects(s.last())));
        assert(seq_objects(s) =~= seq_objects(s.remove(k)).add(node_objects(s[k])));
    }
}

/// Every point under a well-formed node lies inside the node's envelope.
/// Well-formed subtrees are bounded.
pub proof fn lemma_seq_wf_bounded(s: Seq<RTreeNode>)
    requires
        seq_wf(s),
    ensures
        seq_bounded(s),
    decreases s,
{
    if s.len() > 0 {
        lemma_seq_wf_bounded(s.drop_last());
        if let RTreeNode::Parent(pn) = s.last() {
            lemma_seq_wf_bounded(pn.children@);
        }
    }
}

pub proof fn lemma_wf_bounded(n: RTreeNode)
    requires
        node_wf(n),
    ensures
        node_bounded(n),
{
    if let RTreeNode::Parent(pn) = n {
        lemma_seq_wf_bounded(pn.children@);
    }
}

pub proof fn lemma_contained(n: RTreeNode, o: Point)
    requires
        node_bounded(n),
        node_objects(n).contains(o),
    ensures
        env_contains(env_of(n), o),
    decreases n,
{
    match n {
        RTreeNode::Leaf(p) => {},
        RTreeNode::Parent(pn) => {
            let cs = pn.children@;
            lemma_seq_find(cs, o);
            let i = choose|i: int| 0 <= i < cs.len() && #[trigger] node_objects(cs[i]).contains(o);
            lemma_seq_member(cs, i);
            lemma_contained(cs[i], o);
        },
    }
}

/// The lower bound of a node's key: its envelope distance bounds every point under it.
pub proof fn lemma_node_lower_bound(n: RTreeNode, o: Point, q: Point)
    requires
        node_bounded(n),
        node_objects(n).contains(o),
    ensures
        env_dist2(env_of(n), q) <= dist2(o, q),
{
    lemma_contained(n, o);
    lemma_env_dist_lower_bound(env_of(n), o, q);
}

/// Each side of a well-formed node's envelope is touched by a point under it.
pub proof fn lemma_side_witness(n: RTreeNode, f: int)
    requires
        node_wf(n),
        0 <= f < 4,
    ensures
        exists|o: Point| #[trigger] node_objects(n).contains(o) && on_side(env_of(n), o, f),
    decreases n,
{
    match n {
        RTreeNode::Leaf(p) => {
            assert(node_objects(n).contains(p));
        },
        RTreeNode::Parent(pn) => {
            let cs = pn.children@;
            let e = pn.envelope;
            let i = if f == 0 {
                choose|i: int| 0 <= i < cs.len() && #[trigger] env_of(cs[i]).lower.x == e.lower.x
            } else if f == 1 {
                choose|i: int| 0 <= i < cs.len() && #[trigger] env_of(cs[i]).upper.x == e.upper.x
            } else if f == 2 {
                choose|i: int| 0 <= i < cs.len() && #[trigger] env_of(cs[i]).lower.y == e.lower.y
            } else {
                choose|i: int| 0 <= i < cs.len() && #[trigger] env_of(cs[i]).upper.y == e.upper.y
            };
            lemma_seq_member(cs, i);
            lemma_side_witness(cs[i], f);
            let o = choose|o: Point| #[trigger] node_objects(cs[i]).contains(o) && on_side(env_of(cs[i]), o, f);
            assert(node_objects(n).contains(o));
        },
    }
}

/// Some point under a well-formed node is within the min-max distance of its envelope.
pub proof fn lemma_min_max_upper_bound(n: RTreeNode, q: Point)
    requires
        node_wf(n),
    ensures
        exists|o: Point| #[trigger] node_objects(n).contains(o) && dist2(o, q) <= min_max_spec(env_of(n), q),
{
    let e = env_of(n);
    let (nx, fx) = near_far(e.lower.x as int, e.upper.x as int, q.x as int);
    let (ny, fy) = near_far(e.lower.y as int, e.upper.y as int, q.y as int);
    let fxs: int = if nx == e.lower.x - q.x { 0 } else { 1 };
    let fys: int = if ny == e.lower.y - q.y { 2 } else { 3 };
    lemma_side_witness(n, fxs);
    lemma_side_witness(n, fys);
    lemma_wf_bounded(n);
    let ox = choose|o: Point| #[trigger] node_objects(n).contains(o) && on_side(e, o, fxs);
    let oy = choose|o: Point| #[trigger] node_objects(n).contains(o) && on_side(e, o, fys);
    lemma_contained(n, ox);
    lemma_contained(n, oy);
    lemma_min_max_witness(e, ox, q, true);
    lemma_min_max_witness(e, oy, q, false);
}

} // verus!
