use rand::Rng;
use raytracer::{scan_nearest, Aabb, BuildError, BvhKind, BvhNode, BvhTree, Corner};

/// A ray along +x through `(y, z)`: it meets a box whose y and z ranges hold
/// it at distance `min.x`.
fn entry(b: &Aabb, y: u64, z: u64, w: u64) -> Option<u64> {
    let crosses = b.min.y <= y && y <= b.max.y && b.min.z <= z && z <= b.max.z;
    if crosses && b.min.x <= w {
        Some(b.min.x)
    } else {
        None
    }
}

fn random_box(rng: &mut impl Rng) -> Aabb {
    let (x, y, z) = (rng.gen_range(1..100), rng.gen_range(0..20), rng.gen_range(0..20));
    let (dx, dy, dz) = (rng.gen_range(0..10), rng.gen_range(0..10), rng.gen_range(0..10));
    Aabb::new(Corner::new(x, y, z), Corner::new(x + dx, y + dy, z + dz))
}

fn cube_at(x: u64) -> Aabb {
    Aabb::new(Corner::new(x, 0, 0), Corner::new(x + 1, 1, 1))
}

#[test]
fn new_rejects_an_empty_list() {
    assert_eq!(BvhTree::new(vec![]).unwrap_err(), BuildError::Empty);
}

#[test]
fn new_names_the_first_primitive_without_box() {
    let boxes = vec![Some(cube_at(1)), None, Some(cube_at(3)), None];
    assert_eq!(
        BvhTree::new(boxes).unwrap_err(),
        BuildError::MissingBounds { item: 1 }
    );
    assert_eq!(
        BvhTree::new(vec![None]).unwrap_err(),
        BuildError::MissingBounds { item: 0 }
    );
}

#[test]
fn new_keeps_every_primitive() {
    for n in 1..12u64 {
        let tree = BvhTree::new((0..n).map(|x| Some(cube_at(10 * x))).collect()).unwrap();
        assert_eq!(tree.len(), n as usize);
        // Each primitive sits alone on its own stretch of the axis, so each is
        // found by a ray window that ends at it.
        for x in 0..n {
            let r = tree.hit(
                10 * x,
                &|b: Aabb, w: u64| entry(&b, 0, 0, w).is_some(),
                &|i: usize, w: u64| {
                    if i as u64 >= x {
                        entry(&cube_at(10 * i as u64), 0, 0, w)
                    } else {
                        None
                    }
                },
            );
            assert_eq!(r, Some((10 * x, x as usize)));
        }
    }
}

#[test]
fn single_primitive_tree() {
    let tree = BvhTree::new(vec![Some(cube_at(5))]).unwrap();
    let hit = |w: u64| {
        tree.hit(
            w,
            &|b: Aabb, w: u64| entry(&b, 0, 0, w).is_some(),
            &|_: usize, w: u64| entry(&cube_at(5), 0, 0, w),
        )
    };
    assert_eq!(hit(100), Some((5, 0)));
    assert_eq!(hit(5), Some((5, 0)));
    assert_eq!(hit(4), None);
}

#[test]
fn hit_finds_the_nearest_primitive() {
    let boxes = vec![cube_at(30), cube_at(10), cube_at(20), cube_at(40)];
    let tree = BvhTree::new(boxes.iter().map(|b| Some(*b)).collect()).unwrap();
    let r = tree.hit(
        u64::MAX,
        &|b: Aabb, w: u64| entry(&b, 0, 0, w).is_some(),
        &|i: usize, w: u64| entry(&boxes[i], 0, 0, w),
    );
    assert_eq!(r, Some((10, 1)));
    let missed = tree.hit(
        u64::MAX,
        &|b: Aabb, w: u64| entry(&b, 5, 5, w).is_some(),
        &|i: usize, w: u64| entry(&boxes[i], 5, 5, w),
    );
    assert_eq!(missed, None);
}

#[test]
fn scan_nearest_takes_the_later_of_equal_hits() {
    let hits = [Some(7u64), Some(3), None, Some(3), Some(9)];
    let clip = |i: usize, w: u64| hits[i].filter(|t| *t <= w);
    assert_eq!(scan_nearest(5, u64::MAX, &clip), Some((3, 3)));
    assert_eq!(scan_nearest(2, u64::MAX, &clip), Some((3, 1)));
    assert_eq!(scan_nearest(5, 2, &clip), None);
    assert_eq!(scan_nearest(0, u64::MAX, &clip), None);
}

#[test]
fn hierarchy_and_scan_agree_on_random_scenes() {
    let mut rng = rand::thread_rng();
    for _ in 0..200 {
        let n = rng.gen_range(3..40);
        let boxes: Vec<Aabb> = (0..n).map(|_| random_box(&mut rng)).collect();
        let tree = BvhTree::new(boxes.iter().map(|b| Some(*b)).collect()).unwrap();
        for _ in 0..20 {
            let (y, z) = (rng.gen_range(0..30), rng.gen_range(0..30));
            let t_max = rng.gen_range(1..120);
            let leaf = |i: usize, w: u64| entry(&boxes[i], y, z, w);
            let by_tree = tree.hit(t_max, &|b: Aabb, w: u64| entry(&b, y, z, w).is_some(), &leaf);
            let by_scan = scan_nearest(n, t_max, &leaf);
            assert_eq!(by_tree.map(|h| h.0), by_scan.map(|h| h.0));
            if let Some((t, i)) = by_tree {
                assert_eq!(entry(&boxes[i], y, z, t_max), Some(t));
            }
        }
    }
}

#[test]
fn bounds_encloses_every_primitive() {
    let mut rng = rand::thread_rng();
    for n in 1..30 {
        let boxes: Vec<Aabb> = (0..n).map(|_| random_box(&mut rng)).collect();
        let tree = BvhTree::new(boxes.iter().map(|b| Some(*b)).collect()).unwrap();
        let all = boxes[1..].iter().fold(boxes[0], |acc, b| acc.union(b));
        assert_eq!(tree.bounds(), all);
        for b in &boxes {
            assert!(tree.bounds().contains(b));
        }
    }
}

#[test]
fn hierarchy_and_scan_name_the_same_primitive_on_distinct_hits() {
    // Primitives on distinct stretches of the x axis are hit at distinct
    // distances, so both searches name the same primitive.
    let xs = [50u64, 20, 80, 35, 65, 5, 95, 10];
    let boxes: Vec<Aabb> = xs.iter().map(|x| cube_at(*x)).collect();
    let tree = BvhTree::new(boxes.iter().map(|b| Some(*b)).collect()).unwrap();
    for t_max in [0u64, 5, 9, 10, 30, 64, 100, u64::MAX] {
        let leaf = |i: usize, w: u64| entry(&boxes[i], 0, 0, w);
        let by_tree = tree.hit(t_max, &|b: Aabb, w: u64| entry(&b, 0, 0, w).is_some(), &leaf);
        let by_scan = scan_nearest(boxes.len(), t_max, &leaf);
        assert_eq!(by_tree, by_scan);
    }
    let leaf = |i: usize, w: u64| entry(&boxes[i], 0, 0, w);
    assert_eq!(scan_nearest(boxes.len(), 30, &leaf), Some((5, 5)));
}

/// The primitives below node `n`.
fn leaves_below(nodes: &[BvhNode], n: usize) -> Vec<usize> {
    match nodes[n].kind {
        BvhKind::Leaf { item } => vec![item],
        BvhKind::Inner { left, right, .. } => {
            let mut v = leaves_below(nodes, left);
            v.extend(leaves_below(nodes, right));
            v
        }
    }
}

#[test]
fn tree_structure_holds_the_split_rules() {
    let mut rng = rand::thread_rng();
    for n in 1..40usize {
        let boxes: Vec<Aabb> = (0..n).map(|_| random_box(&mut rng)).collect();
        let tree = BvhTree::new(boxes.iter().map(|b| Some(*b)).collect()).unwrap();
        let nodes = tree.nodes();
        assert_eq!(nodes.len(), 2 * n - 1);
        let mut all = leaves_below(nodes, tree.root());
        all.sort();
        assert_eq!(all, (0..n).collect::<Vec<_>>());
        for (at, node) in nodes.iter().enumerate() {
            match node.kind {
                BvhKind::Leaf { item } => assert_eq!(node.bounds, boxes[item]),
                BvhKind::Inner { left, right, axis } => {
                    assert!(left < at && right < at && axis < 3);
                    assert_eq!(node.bounds, nodes[left].bounds.union(&nodes[right].bounds));
                    let key = |i: usize| boxes[i].min.get(axis);
                    let ls: Vec<u64> = leaves_below(nodes, left).into_iter().map(key).collect();
                    let rs: Vec<u64> = leaves_below(nodes, right).into_iter().map(key).collect();
                    let below = ls.iter().max() <= rs.iter().min();
                    let above = ls.iter().min() >= rs.iter().max();
                    assert!(below || above);
                }
            }
        }
    }
}
