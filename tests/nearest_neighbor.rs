use rstar::best_first::{nearest_neighbor, NearestNeighborDistanceIterator, NearestNeighborIterator};
use rstar::branch_bound;
use rstar::geometry::{Envelope, Point};
use rstar::node::{ParentNode, RTreeNode};

const SEED_1: u64 = 0x1234_5678_9abc_def0;
const SEED_2: u64 = 0x0fed_cba9_8765_4321;

/// Deterministic pseudo-random points with coordinates in [-1_000_000, 1_000_000).
fn create_random_points(n: usize, seed: u64) -> Vec<Point> {
    let mut state = seed;
    let mut next = move || {
        state = state
            .wrapping_mul(6364136223846793005)
            .wrapping_add(1442695040888963407);
        ((state >> 33) % 2_000_000) as i32 - 1_000_000
    };
    (0..n)
        .map(|_| {
            let x = next();
            let y = next();
            Point::new(x, y)
        })
        .collect()
}

/// Groups the points into a tree with at most `fanout` children per node.
fn build_tree(points: &[Point], fanout: usize) -> ParentNode {
    let mut sorted: Vec<Point> = points.to_vec();
    sorted.sort_by_key(|p| (p.x, p.y));
    let mut level: Vec<RTreeNode> = sorted.into_iter().map(RTreeNode::Leaf).collect();
    while level.len() > fanout {
        let mut next_level = Vec::new();
        let mut rest = level.into_iter().peekable();
        while rest.peek().is_some() {
            let chunk: Vec<RTreeNode> = rest.by_ref().take(fanout).collect();
            next_level.push(RTreeNode::Parent(ParentNode::new(chunk)));
        }
        level = next_level;
    }
    ParentNode::new(level)
}

fn empty_tree() -> ParentNode {
    ParentNode::new(Vec::new())
}

fn collect_ranked(root: &ParentNode, query: Point) -> Vec<(Point, u128)> {
    let mut iter = NearestNeighborDistanceIterator::new(root, query);
    let mut out = Vec::new();
    while let Some(item) = iter.next() {
        out.push(item);
    }
    out
}

fn collect_objects(root: &ParentNode, query: Point) -> Vec<Point> {
    let mut iter = NearestNeighborIterator::new(root, query);
    let mut out = Vec::new();
    while let Some(item) = iter.next() {
        out.push(item);
    }
    out
}

fn linear_scan(points: &[Point], query: &Point) -> Option<Point> {
    let mut nearest = None;
    let mut closest_dist = u128::MAX;
    for point in points {
        let dx = (point.x as i128 - query.x as i128) as i128;
        let dy = (point.y as i128 - query.y as i128) as i128;
        let new_dist = (dx * dx + dy * dy) as u128;
        if new_dist < closest_dist {
            closest_dist = new_dist;
            nearest = Some(*point);
        }
    }
    nearest
}

fn depth_first(root: &ParentNode, query: &Point) -> Option<Point> {
    let mut bound = u128::MAX;
    branch_bound::nearest_neighbor(root, query, &mut bound)
}

#[test]
fn test_nearest_neighbor_empty() {
    let tree = empty_tree();
    assert!(nearest_neighbor(&tree, Point::new(0, 213)).is_none());
}

#[test]
fn nearest_neighbor_test_nearest_neighbor_empty() {
    let tree = empty_tree();
    assert!(depth_first(&tree, &Point::new(0, 213)).is_none());
}

#[test]
fn test_nearest_neighbor() {
    let points = create_random_points(1000, SEED_1);
    let tree = build_tree(&points, 6);
    let sample_points = create_random_points(100, SEED_2);
    for sample_point in &sample_points {
        let nearest = linear_scan(&points, sample_point);
        assert_eq!(nearest, nearest_neighbor(&tree, *sample_point));
    }
}

#[test]
fn nearest_neighbor_test_nearest_neighbor() {
    let points = create_random_points(1000, SEED_1);
    let tree = build_tree(&points, 6);
    let sample_points = create_random_points(100, SEED_2);
    for sample_point in &sample_points {
        let nearest = linear_scan(&points, sample_point);
        assert!(nearest == depth_first(&tree, sample_point));
    }
}

#[test]
fn test_nearest_neighbor_iterator() {
    let mut points = create_random_points(1000, SEED_1);
    let tree = build_tree(&points, 6);
    let sample_points = create_random_points(50, SEED_2);
    for sample_point in &sample_points {
        points.sort_by(|r, l| {
            r.distance_2(sample_point)
                .partial_cmp(&l.distance_2(sample_point))
                .unwrap()
        });
        let collected: Vec<Point> = collect_objects(&tree, *sample_point);
        assert_eq!(points, collected);
    }
}

#[test]
fn three_points_in_order() {
    let points = vec![Point::new(0, 0), Point::new(5, 5), Point::new(1, 1)];
    let tree = build_tree(&points, 2);
    let query = Point::new(0, 0);
    assert_eq!(nearest_neighbor(&tree, query), Some(Point::new(0, 0)));
    assert_eq!(depth_first(&tree, &query), Some(Point::new(0, 0)));
    let ranked = collect_ranked(&tree, query);
    assert_eq!(
        ranked,
        vec![(Point::new(0, 0), 0), (Point::new(1, 1), 2), (Point::new(5, 5), 50)]
    );
    assert_eq!(
        collect_objects(&tree, query),
        vec![Point::new(0, 0), Point::new(1, 1), Point::new(5, 5)]
    );
}

#[test]
fn empty_tree_ranks_nothing() {
    let tree = empty_tree();
    assert!(collect_ranked(&tree, Point::new(3, -4)).is_empty());
    assert!(collect_objects(&tree, Point::new(3, -4)).is_empty());
}

#[test]
fn single_object_answers_every_query() {
    let p = Point::new(-7, 12);
    let tree = build_tree(&[p], 4);
    for q in create_random_points(20, SEED_2) {
        assert_eq!(nearest_neighbor(&tree, q), Some(p));
        assert_eq!(depth_first(&tree, &q), Some(p));
    }
    let nested = ParentNode::new(vec![RTreeNode::Parent(ParentNode::new(vec![RTreeNode::Leaf(p)]))]);
    assert_eq!(nearest_neighbor(&nested, Point::new(100, 100)), Some(p));
    assert_eq!(depth_first(&nested, &Point::new(100, 100)), Some(p));
}

#[test]
fn single_answer_agrees_with_first_ranked() {
    let points = create_random_points(300, SEED_2);
    let tree = build_tree(&points, 4);
    for q in create_random_points(40, SEED_1) {
        let first = collect_objects(&tree, q).first().copied();
        assert_eq!(nearest_neighbor(&tree, q), first);
        assert_eq!(depth_first(&tree, &q), first);
    }
}

#[test]
fn ranked_distances_ascend() {
    let points = create_random_points(400, SEED_1);
    let tree = build_tree(&points, 5);
    for q in create_random_points(10, SEED_2) {
        let ranked = collect_ranked(&tree, q);
        assert_eq!(ranked.len(), points.len());
        for pair in ranked.windows(2) {
            assert!(pair[0].1 <= pair[1].1);
        }
        for (p, d) in &ranked {
            assert_eq!(p.distance_2(&q), *d);
        }
    }
}

#[test]
fn ranked_objects_are_complete_with_duplicates() {
    let mut points = create_random_points(100, SEED_1);
    points.extend_from_slice(&points.clone()[0..10]);
    points.push(Point::new(0, 0));
    points.push(Point::new(0, 0));
    let tree = build_tree(&points, 3);
    let mut produced = collect_objects(&tree, Point::new(17, -3));
    let mut expected = points.clone();
    produced.sort_by_key(|p| (p.x, p.y));
    expected.sort_by_key(|p| (p.x, p.y));
    assert_eq!(produced, expected);
}

#[test]
fn ranked_prefixes_match_sorted_distances() {
    let points = create_random_points(200, SEED_2);
    let tree = build_tree(&points, 4);
    let q = Point::new(1234, -5678);
    let mut brute: Vec<u128> = points.iter().map(|p| p.distance_2(&q)).collect();
    brute.sort();
    for k in 0..=points.len() {
        let mut iter = NearestNeighborDistanceIterator::new(&tree, q);
        let mut prefix = Vec::new();
        for _ in 0..k {
            prefix.push(iter.next().unwrap().1);
        }
        assert_eq!(prefix, brute[0..k].to_vec());
    }
}

#[test]
fn ranked_enumeration_resumes_and_ends() {
    let points = vec![Point::new(2, 0), Point::new(0, 3), Point::new(-1, 0)];
    let tree = build_tree(&points, 2);
    let mut iter = NearestNeighborDistanceIterator::new(&tree, Point::new(0, 0));
    assert_eq!(iter.next(), Some((Point::new(-1, 0), 1)));
    assert_eq!(iter.next(), Some((Point::new(2, 0), 4)));
    assert_eq!(iter.next(), Some((Point::new(0, 3), 9)));
    assert_eq!(iter.next(), None);
    assert_eq!(iter.next(), None);
}

#[test]
fn depth_first_respects_the_given_bound() {
    let points = vec![Point::new(10, 0), Point::new(0, 20), Point::new(30, 30)];
    let tree = build_tree(&points, 2);
    let q = Point::new(0, 0);
    let mut bound: u128 = 100;
    assert_eq!(branch_bound::nearest_neighbor(&tree, &q, &mut bound), None);
    assert_eq!(bound, 100);
    let mut bound: u128 = 101;
    assert_eq!(
        branch_bound::nearest_neighbor(&tree, &q, &mut bound),
        Some(Point::new(10, 0))
    );
    assert_eq!(bound, 100);
    let mut bound: u128 = 1000;
    assert_eq!(
        branch_bound::nearest_neighbor(&tree, &q, &mut bound),
        Some(Point::new(10, 0))
    );
    assert_eq!(bound, 100);
}

#[test]
fn depth_first_visits_children_by_distance() {
    // Children listed farthest first; the search must still find the nearest.
    let far = RTreeNode::Parent(ParentNode::new(vec![
        RTreeNode::Leaf(Point::new(100, 100)),
        RTreeNode::Leaf(Point::new(120, 90)),
    ]));
    let mid = RTreeNode::Parent(ParentNode::new(vec![
        RTreeNode::Leaf(Point::new(40, 40)),
        RTreeNode::Leaf(Point::new(50, 45)),
    ]));
    let near = RTreeNode::Parent(ParentNode::new(vec![
        RTreeNode::Leaf(Point::new(3, 4)),
        RTreeNode::Leaf(Point::new(8, 1)),
    ]));
    let tree = ParentNode::new(vec![far, mid, near]);
    let q = Point::new(0, 0);
    let mut bound = u128::MAX;
    assert_eq!(
        branch_bound::nearest_neighbor(&tree, &q, &mut bound),
        Some(Point::new(3, 4))
    );
    assert_eq!(bound, 25);
    assert_eq!(nearest_neighbor(&tree, q), Some(Point::new(3, 4)));
}

#[test]
fn min_max_distance_values() {
    let e = Envelope::from_corners(Point::new(1, 1), Point::new(3, 4));
    // Closer faces x = 1, y = 1; farther faces x = 3, y = 4.
    assert_eq!(branch_bound::min_max_dist_2(&e, &Point::new(0, 0)), 10);
    let inside = Envelope::from_corners(Point::new(-2, -2), Point::new(2, 6));
    assert_eq!(branch_bound::min_max_dist_2(&inside, &Point::new(0, 0)), 8);
    let single = Point::new(5, -5).envelope();
    assert_eq!(branch_bound::min_max_dist_2(&single, &Point::new(2, -1)), 25);
}

#[test]
fn envelope_distance_values() {
    let e = Envelope::from_corners(Point::new(3, 4), Point::new(1, 1));
    assert_eq!(e.lower, Point::new(1, 1));
    assert_eq!(e.upper, Point::new(3, 4));
    assert_eq!(e.distance_2(&Point::new(2, 2)), 0);
    assert_eq!(e.distance_2(&Point::new(0, 0)), 2);
    assert_eq!(e.distance_2(&Point::new(6, 8)), 25);
    assert_eq!(e.distance_2(&Point::new(2, -3)), 16);
    assert!(e.contains_point(&Point::new(3, 1)));
    assert!(!e.contains_point(&Point::new(4, 1)));
}

#[test]
fn point_distance_values() {
    assert_eq!(Point::new(1, 2).distance_2(&Point::new(4, 6)), 25);
    let lo = Point::new(i32::MIN, i32::MIN);
    let hi = Point::new(i32::MAX, i32::MAX);
    let side: u128 = (u32::MAX) as u128;
    assert_eq!(lo.distance_2(&hi), 2 * side * side);
    assert_eq!(Point::new(1, 1).distance_2_if_less_or_equal(&Point::new(0, 0), 2), Some(2));
    assert_eq!(Point::new(1, 1).distance_2_if_less_or_equal(&Point::new(0, 0), 1), None);
}

#[test]
fn parent_envelope_bounds_children() {
    let node = ParentNode::new(vec![
        RTreeNode::Leaf(Point::new(3, -1)),
        RTreeNode::Leaf(Point::new(-2, 7)),
        RTreeNode::Parent(ParentNode::new(vec![RTreeNode::Leaf(Point::new(0, 9))])),
    ]);
    assert_eq!(node.envelope.lower, Point::new(-2, -1));
    assert_eq!(node.envelope.upper, Point::new(3, 9));
    let merged = Point::new(1, 1).envelope().merged(&Point::new(-1, 4).envelope());
    assert_eq!(merged, Envelope::from_corners(Point::new(-1, 1), Point::new(1, 4)));
}

#[test]
fn depth_first_sorts_before_pruning() {
    // In the given order, the middle child lies beyond the bound left by the
    // first one, while the last child holds the nearest point.
    let wide = RTreeNode::Parent(ParentNode::new(vec![
        RTreeNode::Leaf(Point::new(10, 0)),
        RTreeNode::Leaf(Point::new(-30, 30)),
        RTreeNode::Leaf(Point::new(30, 30)),
    ]));
    let lone = RTreeNode::Leaf(Point::new(0, 15));
    let below = RTreeNode::Parent(ParentNode::new(vec![
        RTreeNode::Leaf(Point::new(5, 0)),
        RTreeNode::Leaf(Point::new(-40, -40)),
        RTreeNode::Leaf(Point::new(40, -40)),
    ]));
    let tree = ParentNode::new(vec![wide, lone, below]);
    let q = Point::new(0, 0);
    let mut bound = u128::MAX;
    assert_eq!(
        branch_bound::nearest_neighbor(&tree, &q, &mut bound),
        Some(Point::new(5, 0))
    );
    assert_eq!(bound, 25);
    assert_eq!(nearest_neighbor(&tree, q), Some(Point::new(5, 0)));
}

#[test]
fn enumerations_agree_step_by_step_with_ties() {
    // Many points at equal distance from the query.
    let points = vec![
        Point::new(1, 0),
        Point::new(0, 1),
        Point::new(-1, 0),
        Point::new(0, -1),
        Point::new(1, 1),
        Point::new(-1, -1),
        Point::new(1, 0),
    ];
    let tree = build_tree(&points, 2);
    let q = Point::new(0, 0);
    let first = collect_ranked(&tree, q);
    let second = collect_ranked(&tree, q);
    assert_eq!(first, second);
    let objects = collect_objects(&tree, q);
    let projected: Vec<Point> = first.iter().map(|(p, _)| *p).collect();
    assert_eq!(objects, projected);
}

#[test]
fn loose_envelopes_still_enumerate_in_order() {
    // Envelopes that hold their children without fitting them tightly.
    let inner = ParentNode {
        children: vec![RTreeNode::Leaf(Point::new(4, 4)), RTreeNode::Leaf(Point::new(6, 5))],
        envelope: Envelope::from_corners(Point::new(-10, -10), Point::new(10, 10)),
    };
    let root = ParentNode {
        children: vec![RTreeNode::Parent(inner), RTreeNode::Leaf(Point::new(2, 3))],
        envelope: Envelope::from_corners(Point::new(-20, -20), Point::new(20, 20)),
    };
    let ranked = collect_ranked(&root, Point::new(0, 0));
    assert_eq!(
        ranked,
        vec![(Point::new(2, 3), 13), (Point::new(4, 4), 32), (Point::new(6, 5), 61)]
    );
}
