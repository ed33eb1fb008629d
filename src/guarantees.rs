//! What the searches guarantee together, stated over the shapes of their
//! contracts: `is_nearest` for the single answer, `ranked_step` for what any
//! step of a ranked enumeration owes, and `ranked_next` for the step that the
//! enumeration takes.
use vstd::prelude::*;
use vstd::multiset::Multiset;
use crate::geometry::{Point, dist2, lemma_dist2_bound};
use crate::node::{RTreeNode, ParentNode, seq_objects, seq_bounded, node_objects, lemma_seq_remove, lemma_seq_member, lemma_seq_find, lemma_seq_concat};
use crate::best_first::{ranked_step, is_nearest, node_key, ranked_next, keys_of, first_least, lemma_first_least, lemma_key_lower_bound};
use crate::branch_bound::nearest_within;

verus! {

broadcast use vstd::multiset::group_multiset_axioms, vstd::seq_lib::group_to_multiset_ensures;

/// A run of `out.len()` steps of a ranked enumeration: `ms[i]` is what remains
/// before step `i`, and `out[i]` is what that step yields.
pub open spec fn ranked_run(ms: Seq<Multiset<Point>>, q: Point, out: Seq<(Point, u128)>) -> bool {
    &&& ms.len() == out.len() + 1
    &&& forall|i: int| 0 <= i < out.len() ==> #[trigger] ranked_step(ms[i], q, Some(out[i]), ms[i + 1])
}

/// The points that a run has yielded, with their multiplicities.
pub open spec fn produced(out: Seq<(Point, u128)>) -> Multiset<Point> {
    out.map_values(|e: (Point, u128)| e.0).to_multiset()
}

/// A tree without children holds no points: the single-answer search finds
/// nothing, and the ranked enumeration ends at its first step.
pub proof fn lemma_empty_tree(root: ParentNode, q: Point)
    requires
        root.children@.len() == 0,
    ensures
        seq_objects(root.children@) =~= Multiset::empty(),
        forall|r: Option<Point>| #[trigger] is_nearest(seq_objects(root.children@), q, r) ==> r is None,
        forall|r: Option<(Point, u128)>, after: Multiset<Point>|
            #[trigger] ranked_step(seq_objects(root.children@), q, r, after) ==> r is None,
{
}

/// A tree that holds one point answers that point to every query.
pub proof fn lemma_single_object(root: ParentNode, p: Point, q: Point, r: Option<Point>)
    requires
        seq_objects(root.children@) == Multiset::singleton(p),
        is_nearest(seq_objects(root.children@), q, r),
    ensures
        r == Some(p),
{
    let m = seq_objects(root.children@);
    if r is None {
        assert(m.count(p) == 0);
    } else {
        let a = r->0;
        assert(m.contains(a));
    }
}

/// The depth-first search started with the largest bound answers a nearest
/// point, and a point exactly when there is one.
pub proof fn lemma_unbounded_search_is_nearest(m: Multiset<Point>, q: Point, r: Option<Point>, found: int)
    requires
        nearest_within(m, q, u128::MAX as int, r, found),
    ensures
        is_nearest(m, q, r),
{
    if r is None {
        assert forall|o: Point| m.count(o) == 0 by {
            if m.contains(o) {
                lemma_dist2_bound(o, q);
            }
        }
    }
}

/// The single answer and the first ranked item agree: both exist exactly when
/// the tree holds a point, they lie at the same distance, and they are the same
/// point whenever the nearest point is unique.
pub proof fn lemma_agreement(
    m: Multiset<Point>,
    q: Point,
    r1: Option<Point>,
    r2: Option<(Point, u128)>,
    after: Multiset<Point>,
)
    requires
        is_nearest(m, q, r1),
        ranked_step(m, q, r2, after),
    ensures
        r1 is None <==> r2 is None,
        r1 matches Some(a) ==> r2 matches Some((b, d)) ==> dist2(a, q) == d && ((forall|o: Point|
            #[trigger] m.contains(o) && o != a ==> dist2(a, q) < dist2(o, q)) ==> a == b),
{
    match r1 {
        Some(a) => {
            assert(m.contains(a));
            if r2 is None {
                assert(m.count(a) == 0);
            }
        },
        None => {
            if let Some((b, d)) = r2 {
                assert(m.contains(b));
            }
        },
    }
}

/// Two consecutive steps of a ranked enumeration yield ascending distances.
pub proof fn lemma_ascending(
    m0: Multiset<Point>,
    q: Point,
    first: Point,
    d1: u128,
    m1: Multiset<Point>,
    second: Point,
    d2: u128,
    m2: Multiset<Point>,
)
    requires
        ranked_step(m0, q, Some((first, d1)), m1),
        ranked_step(m1, q, Some((second, d2)), m2),
    ensures
        d1 <= d2,
{
    assert(m0.contains(second));
}

/// Any prefix of a ranked enumeration is a prefix of the points sorted by
/// distance: it ascends, every distance in it is at most that of every point
/// still to come, and together with what remains it is exactly the start.
pub proof fn lemma_ranked_prefix(ms: Seq<Multiset<Point>>, q: Point, out: Seq<(Point, u128)>)
    requires
        ranked_run(ms, q, out),
    ensures
        forall|i: int, j: int| 0 <= i <= j < out.len() ==> #[trigger] out[i].1 <= #[trigger] out[j].1,
        forall|i: int, o: Point|
            0 <= i < out.len() && #[trigger] ms.last().contains(o) ==> #[trigger] out[i].1 <= dist2(o, q),
        ms[0] =~= produced(out).add(ms.last()),
    decreases out.len(),
{
    let n = out.len() as int;
    if n == 0 {
        assert(out.map_values(|e: (Point, u128)| e.0) =~= Seq::<Point>::empty());
    } else {
        let ms0 = ms.drop_last();
        let out0 = out.drop_last();
        assert forall|i: int| 0 <= i < out0.len() implies #[trigger] ranked_step(ms0[i], q, Some(out0[i]), ms0[i + 1]) by {
            assert(ranked_step(ms[i], q, Some(out[i]), ms[i + 1]));
        }
        lemma_ranked_prefix(ms0, q, out0);
        assert(ranked_step(ms[n - 1], q, Some(out[n - 1]), ms[n]));
        let p = out[n - 1].0;
        assert(ms0.last() == ms[n - 1]);
        assert forall|i: int, j: int| 0 <= i <= j < out.len() implies #[trigger] out[i].1 <= #[trigger] out[j].1 by {
            if j < n - 1 {
                assert(out0[i] == out[i] && out0[j] == out[j]);
            } else if i < n - 1 {
                assert(out0[i] == out[i]);
                assert(ms0.last().contains(p));
            }
        }
        assert forall|i: int, o: Point|
            0 <= i < out.len() && #[trigger] ms.last().contains(o) implies #[trigger] out[i].1 <= dist2(o, q) by {
            assert(ms[n - 1].contains(o));
            if i < n - 1 {
                assert(out0[i] == out[i]);
                assert(ms0.last().contains(o));
            }
        }
        assert(out.map_values(|e: (Point, u128)| e.0) =~= out0.map_values(|e: (Point, u128)| e.0).push(p));
        assert(ms[n - 1] =~= ms[n].insert(p));
    }
}

/// A full ranked enumeration yields every point of the tree exactly as often
/// as the tree holds it: nothing is left out and nothing is repeated.
pub proof fn lemma_ranked_complete(
    root: ParentNode,
    ms: Seq<Multiset<Point>>,
    q: Point,
    out: Seq<(Point, u128)>,
    after: Multiset<Point>,
)
    requires
        ms[0] == seq_objects(root.children@),
        ranked_run(ms, q, out),
        ranked_step(ms.last(), q, None, after),
    ensures
        produced(out) =~= seq_objects(root.children@),
        out.len() == seq_objects(root.children@).len(),
{
    lemma_ranked_prefix(ms, q, out);
    assert(produced(out).add(ms.last()) =~= produced(out));
}

/// Each step of the enumeration, taken from bounded pending nodes, yields a
/// nearest remaining point and leaves bounded pending nodes.
pub proof fn lemma_ranked_next_step(s: Seq<RTreeNode>, q: Point)
    requires
        seq_bounded(s),
    ensures
        ranked_step(seq_objects(s), q, ranked_next(s, q).0, seq_objects(ranked_next(s, q).1)),
        seq_bounded(ranked_next(s, q).1),
    decreases crate::node::seq_count(s),
{
    if s.len() == 0 {
        assert(s =~= Seq::<RTreeNode>::empty());
    } else {
        let keys = keys_of(s, q);
        lemma_first_least(keys);
        let k = first_least(keys);
        let rest = s.remove(k);
        lemma_seq_remove(s, k);
        lemma_seq_member(s, k);
        match s[k] {
            RTreeNode::Leaf(p) => {
                lemma_dist2_bound(p, q);
                assert forall|o: Point| #[trigger] seq_objects(s).contains(o) implies dist2(p, q) <= dist2(o, q) by {
                    lemma_seq_find(s, o);
                    let i = choose|i: int| 0 <= i < s.len() && #[trigger] node_objects(s[i]).contains(o);
                    lemma_seq_member(s, i);
                    lemma_key_lower_bound(s[i], o, q);
                    assert(keys[k] <= keys[i] && keys[i] == node_key(s[i], q));
                }
                assert(node_objects(s[k]) =~= Multiset::singleton(p));
                assert(seq_objects(rest) =~= seq_objects(s).remove(p));
            },
            RTreeNode::Parent(pn) => {
                lemma_seq_concat(rest, pn.children@);
                lemma_ranked_next_step(rest + pn.children@, q);
            },
        }
    }
}

/// What is pending after `n` steps of the enumeration from `pending`.
pub open spec fn ranked_state(pending: Seq<RTreeNode>, q: Point, n: nat) -> Seq<RTreeNode>
    decreases n,
{
    if n == 0 {
        pending
    } else {
        ranked_next(ranked_state(pending, q, (n - 1) as nat), q).1
    }
}

/// What the first `n` steps of the enumeration from `pending` yield; a step
/// that ends the enumeration yields nothing.
pub open spec fn ranked_items(pending: Seq<RTreeNode>, q: Point, n: nat) -> Seq<(Point, u128)>
    decreases n,
{
    if n == 0 {
        Seq::empty()
    } else {
        let prev = ranked_items(pending, q, (n - 1) as nat);
        match ranked_next(ranked_state(pending, q, (n - 1) as nat), q).0 {
            Some(e) => prev.push(e),
            None => prev,
        }
    }
}

/// The first `n` items that the enumeration of a tree yields are the first
/// items of its points sorted by distance: each is yielded with its distance,
/// they ascend, each lies no farther than every point not yet yielded, they and
/// the points still to come are exactly the tree's points, and the enumeration
/// yields fewer than `n` only when no point is left.
pub proof fn lemma_ranked_items(root: ParentNode, q: Point, n: nat)
    requires
        seq_bounded(root.children@),
    ensures
        ({
            let out = ranked_items(root.children@, q, n);
            let rest = seq_objects(ranked_state(root.children@, q, n));
            &&& seq_bounded(ranked_state(root.children@, q, n))
            &&& forall|i: int| 0 <= i < out.len() ==> (#[trigger] out[i]).1 == dist2(out[i].0, q)
            &&& forall|i: int, j: int| 0 <= i <= j < out.len() ==> #[trigger] out[i].1 <= #[trigger] out[j].1
            &&& forall|i: int, o: Point|
                0 <= i < out.len() && #[trigger] rest.contains(o) ==> #[trigger] out[i].1 <= dist2(o, q)
            &&& seq_objects(root.children@) =~= produced(out).add(rest)
            &&& out.len() == n || rest =~= Multiset::empty()
        }),
    decreases n,
{
    let s0 = root.children@;
    if n == 0 {
        assert(Seq::<(Point, u128)>::empty().map_values(|e: (Point, u128)| e.0) =~= Seq::<Point>::empty());
    } else {
        let m = (n - 1) as nat;
        lemma_ranked_items(root, q, m);
        let prev = ranked_items(s0, q, m);
        let st = ranked_state(s0, q, m);
        lemma_ranked_next_step(st, q);
        let out = ranked_items(s0, q, n);
        let rest = seq_objects(ranked_state(s0, q, n));
        match ranked_next(st, q).0 {
            Some(e) => {
                let p = e.0;
                assert(out == prev.push(e));
                assert forall|i: int| 0 <= i < out.len() implies (#[trigger] out[i]).1 == dist2(out[i].0, q) by {
                    if i < prev.len() {
                        assert(out[i] == prev[i]);
                    }
                }
                assert forall|i: int, j: int| 0 <= i <= j < out.len() implies #[trigger] out[i].1 <= #[trigger] out[j].1 by {
                    if j < prev.len() {
                        assert(out[i] == prev[i] && out[j] == prev[j]);
                    } else if i < prev.len() {
                        assert(out[i] == prev[i]);
                        assert(seq_objects(st).contains(p));
                    }
                }
                assert forall|i: int, o: Point|
                    0 <= i < out.len() && #[trigger] rest.contains(o) implies #[trigger] out[i].1 <= dist2(o, q) by {
                    assert(seq_objects(st).contains(o));
                    if i < prev.len() {
                        assert(out[i] == prev[i]);
                    }
                }
                assert(out.map_values(|e: (Point, u128)| e.0) =~= prev.map_values(|e: (Point, u128)| e.0).push(p));
                assert(seq_objects(st) =~= rest.insert(p));
            },
            None => {
                assert(out == prev);
            },
        }
    }
}

/// Enumerating a tree for as many steps as it holds points yields every point
/// exactly as often as the tree holds it, and nothing is left to come.
pub proof fn lemma_ranked_items_complete(root: ParentNode, q: Point)
    requires
        seq_bounded(root.children@),
    ensures
        produced(ranked_items(root.children@, q, seq_objects(root.children@).len())) =~= seq_objects(
            root.children@,
        ),
        ranked_next(ranked_state(root.children@, q, seq_objects(root.children@).len()), q).0 is None,
{
    let n = seq_objects(root.children@).len();
    lemma_ranked_items(root, q, n);
    let out = ranked_items(root.children@, q, n);
    let st = ranked_state(root.children@, q, n);
    let rest = seq_objects(st);
    assert(produced(out).len() == out.len());
    assert(rest =~= Multiset::empty());
    assert(produced(out).add(rest) =~= produced(out));
    lemma_ranked_next_step(st, q);
}

} // verus!
