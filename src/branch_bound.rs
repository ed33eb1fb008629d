//! Depth-first branch and bound: the single nearest point, with one running
//! best distance threaded through the recursion.
use vstd::prelude::*;
use smallvec::SmallVec;
use vstd::multiset::Multiset;
use crate::geometry::{Point, Envelope, min_max_spec, sq, near_far, dist2, env_dist2};
use crate::node::{RTreeNode, ParentNode, env_of, seq_objects, seq_count, seq_wf, node_objects, lemma_seq_member, lemma_seq_find, lemma_node_lower_bound, lemma_min_max_upper_bound, lemma_wf_bounded};

verus! {

broadcast use vstd::multiset::group_multiset_axioms, vstd::seq_lib::group_to_multiset_ensures;

/// The children that survive pruning, as pairs of a child's index and its
/// envelope distance, kept inline for small nodes.
#[verifier::external_body]
pub struct Candidates {
    items: SmallVec<[(usize, u128); 8]>,
}

/// The items of a candidate list, in order.
pub uninterp spec fn candidates_of(v: Candidates) -> Seq<(usize, u128)>;

/// Relies on smallvec::SmallVec::new: the new vector is empty.
#[verifier::external_body]
fn candidates_new() -> (r: Candidates)
    ensures
        candidates_of(r) == Seq::<(usize, u128)>::empty(),
{
    Candidates { items: SmallVec::new() }
}

/// Relies on smallvec::SmallVec::push: appends the item at the end; it
/// panics only when the length would overflow.
#[verifier::external_body]
fn candidates_push(v: &mut Candidates, item: (usize, u128))
    requires
        candidates_of(*old(v)).len() < usize::MAX,
    ensures
        candidates_of(*final(v)) == candidates_of(*old(v)).push(item),
{
    v.items.push(item)
}

/// Relies on smallvec::SmallVec::len: the number of items.
#[verifier::external_body]
fn candidates_len(v: &Candidates) -> (r: usize)
    ensures
        r == candidates_of(*v).len(),
{
    v.items.len()
}

/// Relies on indexing the slice that smallvec::SmallVec derefs to.
#[verifier::external_body]
fn candidates_get(v: &Candidates, i: usize) -> (r: (usize, u128))
    requires
        i < candidates_of(*v).len(),
    ensures
        r == candidates_of(*v)[i as int],
{
    v.items[i]
}

/// Relies on slice::sort_by_key over the items of smallvec::SmallVec, keyed
/// by the distance: the same items, in ascending order of distance.
#[verifier::external_body]
fn candidates_sort(v: &mut Candidates)
    ensures
        candidates_of(*final(v)).to_multiset() == candidates_of(*old(v)).to_multiset(),
        forall|i: int, j: int|
            0 <= i <= j < candidates_of(*final(v)).len() ==> #[trigger] candidates_of(*final(v))[i].1
                <= #[trigger] candidates_of(*final(v))[j].1,
{
    v.items.sort_by_key(|c| c.1)
}

/// Offsets from `v` to the closer and to the farther end of `[lo, hi]`.
fn axis_near_far(lo: i32, hi: i32, v: i32) -> (r: (i64, i64))
    ensures
        r.0 == near_far(lo as int, hi as int, v as int).0,
        r.1 == near_far(lo as int, hi as int, v as int).1,
        -0x1_0000_0000 < r.0 < 0x1_0000_0000,
        -0x1_0000_0000 < r.1 < 0x1_0000_0000,
{
    let l: i64 = lo as i64 - v as i64;
    let u: i64 = hi as i64 - v as i64;
    let al: i64 = if l < 0 { -l } else { l };
    let au: i64 = if u < 0 { -u } else { u };
    if al < au {
        (l, u)
    } else {
        (u, l)
    }
}

fn square_i64(a: i64) -> (r: u128)
    requires
        -0x1_0000_0000 < a < 0x1_0000_0000,
    ensures
        r == sq(a as int),
        r < 0x1_0000_0000_0000_0000,
{
    let m: u64 = if a < 0 { (-a) as u64 } else { a as u64 };
    assert(m * m < 0x1_0000_0000_0000_0000) by (nonlinear_arith)
        requires
            m < 0x1_0000_0000,
    ;
    assert(sq(a as int) == sq(m as int)) by (nonlinear_arith)
        requires
            m == a || m == -a,
    ;
    (m as u128) * (m as u128)
}

/// The min-max distance of `mbr` from `point`: for one axis the farther face,
/// for the other the closer face, taking the least of the two choices. Some
/// point under a tight envelope lies no farther than this.
pub fn min_max_dist_2(mbr: &Envelope, point: &Point) -> (r: u128)
    ensures
        r == min_max_spec(*mbr, *point),
{
    let (min_x, max_x) = axis_near_far(mbr.lower.x, mbr.upper.x, point.x);
    let (min_y, max_y) = axis_near_far(mbr.lower.y, mbr.upper.y, point.y);
    let mut result: u128 = square_i64(max_x) + square_i64(min_y);
    let new_dist: u128 = square_i64(min_x) + square_i64(max_y);
    if new_dist < result {
        result = new_dist;
    }
    result
}

/// The outcome of a search below a bound: every point of `m` lies at least
/// `found` from `q`; a point is returned exactly when one lies strictly closer
/// than `bound`, and then it lies at `found`; otherwise `found` is `bound`.
pub open spec fn nearest_within(m: Multiset<Point>, q: Point, bound: int, r: Option<Point>, found: int) -> bool {
    &&& forall|o: Point| #[trigger] m.contains(o) ==> found <= dist2(o, q)
    &&& match r {
        Some(p) => m.contains(p) && dist2(p, q) == found && found < bound,
        None => found == bound,
    }
}

/// Searches the subtrees under `node` for the point nearest to `point` that is
/// strictly closer than `*nearest_distance`, and lowers the bound to its
/// squared distance. Children farther than the least min-max distance among
/// them are pruned at once; the rest are visited by ascending envelope
/// distance until one lies beyond the current bound.
pub fn nearest_neighbor(node: &ParentNode, point: &Point, nearest_distance: &mut u128) -> (r: Option<Point>)
    requires
        seq_wf(node.children@),
    ensures
        nearest_within(
            seq_objects(node.children@),
            *point,
            *old(nearest_distance) as int,
            r,
            *final(nearest_distance) as int,
        ),
    decreases seq_count(node.children@),
{
    let ghost q = *point;
    let ghost cs = node.children@;
    let ghost start = *nearest_distance as int;
    let mut nearest: Option<Point> = None;
    let n = node.children.len();
    // The least min-max distance over the children.
    let mut smallest_min_max: u128 = u128::MAX;
    let mut i: usize = 0;
    while i < n
        invariant
            n == cs.len(),
            cs == node.children@,
            q == *point,
            i <= n,
            i > 0 ==> exists|j: int| 0 <= j < i && #[trigger] min_max_spec(env_of(cs[j]), q) == smallest_min_max,
        decreases n - i,
    {
        let env = node.children[i].envelope();
        let new_min = min_max_dist_2(&env, point);
        if i == 0 || new_min < smallest_min_max {
            smallest_min_max = new_min;
            assert(min_max_spec(env_of(cs[i as int]), q) == smallest_min_max);
        }
        i = i + 1;
    }
    let mut sorted = candidates_new();
    i = 0;
    while i < n
        invariant
            n == cs.len(),
            cs == node.children@,
            q == *point,
            i <= n,
            candidates_of(sorted).len() <= i,
            forall|k: int|
                0 <= k < candidates_of(sorted).len() ==> (#[trigger] candidates_of(sorted)[k]).0 < n
                    && candidates_of(sorted)[k].1 == env_dist2(env_of(cs[candidates_of(sorted)[k].0 as int]), q),
            forall|j: int|
                0 <= j < i && env_dist2(env_of(cs[j]), q) <= smallest_min_max ==> exists|k: int|
                    0 <= k < candidates_of(sorted).len() && (#[trigger] candidates_of(sorted)[k]).0 == j,
        decreases n - i,
    {
        let env = node.children[i].envelope();
        let min_dist = env.distance_2(point);
        if min_dist <= smallest_min_max {
            let ghost before = candidates_of(sorted);
            candidates_push(&mut sorted, (i, min_dist));
            proof {
                assert(candidates_of(sorted)[before.len() as int] == (i, min_dist));
                assert forall|j: int| 0 <= j < i && env_dist2(env_of(cs[j]), q) <= smallest_min_max implies exists|k: int|
                    0 <= k < candidates_of(sorted).len() && (#[trigger] candidates_of(sorted)[k]).0 == j by {
                    let k = choose|k: int| 0 <= k < before.len() && (#[trigger] before[k]).0 == j;
                    assert(candidates_of(sorted)[k] == before[k]);
                }
            }
        }
        i = i + 1;
    }
    let ghost unsorted = candidates_of(sorted);
    candidates_sort(&mut sorted);
    let ghost c = candidates_of(sorted);
    proof {
        assert forall|k: int| 0 <= k < c.len() implies (#[trigger] c[k]).0 < n
            && c[k].1 == env_dist2(env_of(cs[c[k].0 as int]), q) by {
            assert(c.to_multiset().count(c[k]) > 0);
            assert(unsorted.contains(c[k]));
        }
        assert forall|j: int| 0 <= j < n && env_dist2(env_of(cs[j]), q) <= smallest_min_max implies exists|k: int|
            0 <= k < c.len() && (#[trigger] c[k]).0 == j by {
            let k = choose|k: int| 0 <= k < unsorted.len() && (#[trigger] unsorted[k]).0 == j;
            assert(unsorted.to_multiset().count(unsorted[k]) > 0);
            assert(c.contains(unsorted[k]));
        }
    }
    let len = candidates_len(&sorted);
    let mut k: usize = 0;
    while k < len
        invariant
            n == cs.len(),
            cs == node.children@,
            q == *point,
            seq_wf(cs),
            c == candidates_of(sorted),
            len == c.len(),
            k <= len,
            forall|k2: int| 0 <= k2 < c.len() ==> (#[trigger] c[k2]).0 < n
                && c[k2].1 == env_dist2(env_of(cs[c[k2].0 as int]), q),
            *nearest_distance <= start,
            start == *old(nearest_distance),
            forall|k2: int, o: Point|
                0 <= k2 < k && #[trigger] node_objects(cs[c[k2].0 as int]).contains(o) ==> *nearest_distance
                    <= dist2(o, q),
            match nearest {
                Some(p) => seq_objects(cs).contains(p) && dist2(p, q) == *nearest_distance
                    && *nearest_distance < start,
                None => *nearest_distance == start,
            },
        ensures
            k == len || (k < len && c[k as int].1 > *nearest_distance),
        decreases len - k,
    {
        let (ci, min_dist) = candidates_get(&sorted, k);
        if min_dist > *nearest_distance {
            // Every remaining child lies farther still.
            break;
        }
        let ghost bound_before = *nearest_distance;
        proof {
            lemma_seq_member(cs, ci as int);
        }
        let child = &node.children[ci];
        proof {
            assert(c[k as int] == (ci, min_dist));
            assert(*child == cs[ci as int]);
        }
        match child {
            RTreeNode::Parent(data) => {
                if let Some(t) = nearest_neighbor(data, point, nearest_distance) {
                    nearest = Some(t);
                }
            },
            RTreeNode::Leaf(t) => {
                let distance = t.distance_2(point);
                if distance < *nearest_distance {
                    nearest = Some(*t);
                    *nearest_distance = distance;
                }
            },
        }
        proof {
            let nd = *nearest_distance;
            assert(nd <= bound_before);
            assert(forall|o: Point| #[trigger] node_objects(*child).contains(o) ==> nd <= dist2(o, q));
            assert forall|k2: int, o: Point|
                0 <= k2 < k + 1 && #[trigger] node_objects(cs[c[k2].0 as int]).contains(o) implies nd
                    <= dist2(o, q) by {
                if k2 < k {
                    assert(bound_before <= dist2(o, q));
                }
            }
            if let Some(p) = nearest {
                if node_objects(*child).contains(p) {
                    assert(seq_objects(cs).count(p) >= node_objects(cs[ci as int]).count(p));
                }
            }
        }
        k = k + 1;
    }
    proof {
        let m = seq_objects(cs);
        let nd = *nearest_distance as int;
        // Every point under a child that survived pruning lies at least `nd` away.
        assert forall|j: int, o: Point|
            0 <= j < n && env_dist2(env_of(cs[j]), q) <= smallest_min_max && #[trigger] node_objects(cs[j]).contains(o)
            implies nd <= dist2(o, q) by {
            let k2 = choose|k2: int| 0 <= k2 < c.len() && (#[trigger] c[k2]).0 == j;
            if k2 >= k {
                lemma_seq_member(cs, j);
                lemma_wf_bounded(cs[j]);
                lemma_node_lower_bound(cs[j], o, q);
                assert(c[k as int].1 <= c[k2].1);
            }
        }
        assert forall|o: Point| #[trigger] m.contains(o) implies nd <= dist2(o, q) by {
            lemma_seq_find(cs, o);
            let j = choose|j: int| 0 <= j < cs.len() && #[trigger] node_objects(cs[j]).contains(o);
            lemma_seq_member(cs, j);
            lemma_wf_bounded(cs[j]);
            lemma_node_lower_bound(cs[j], o, q);
            if env_dist2(env_of(cs[j]), q) > smallest_min_max {
                let js = choose|js: int| 0 <= js < n && #[trigger] min_max_spec(env_of(cs[js]), q) == smallest_min_max;
                lemma_seq_member(cs, js);
                lemma_min_max_upper_bound(cs[js], q);
                let os = choose|os: Point| #[trigger] node_objects(cs[js]).contains(os) && dist2(os, q) <= min_max_spec(env_of(cs[js]), q);
                lemma_wf_bounded(cs[js]);
                lemma_node_lower_bound(cs[js], os, q);
            }
        }
    }
    nearest
}

} // verus!
