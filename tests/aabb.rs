use raytracer::{enclosing_box, Aabb, Corner};

/// The order key of a float: its integer order is the float's total order.
fn key(x: f64) -> u64 {
    let bits = x.to_bits();
    if bits >> 63 == 1 {
        !bits
    } else {
        bits | (1 << 63)
    }
}

fn point(x: f64, y: f64, z: f64) -> Corner {
    Corner::new(key(x), key(y), key(z))
}

fn cube(min: u64, max: u64) -> Aabb {
    Aabb::new(Corner::new(min, min, min), Corner::new(max, max, max))
}

#[test]
fn test_union() {
    let aabb1 = Aabb::new(point(0.0, 0.0, 0.0), point(1.0, 1.0, 1.0));
    let aabb2 = Aabb::new(point(-1.0, -1.0, -1.0), point(0.0, 0.0, 0.0));

    assert_eq!(
        Aabb::new(point(-1.0, -1.0, -1.0), point(1.0, 1.0, 1.0)),
        aabb1.union(&aabb2)
    )
}

#[test]
fn order_key_follows_float_order() {
    let xs = [-1000.0, -1.5, -0.25, 0.0, 1e-9, 0.5, 3.0, 1e300, f64::INFINITY];
    for w in xs.windows(2) {
        assert!(key(w[0]) < key(w[1]));
    }
}

#[test]
fn union_takes_min_of_mins_and_max_of_maxes() {
    let a = Aabb::new(Corner::new(1, 7, 3), Corner::new(4, 9, 8));
    let b = Aabb::new(Corner::new(2, 5, 6), Corner::new(10, 8, 7));
    let u = a.union(&b);
    assert_eq!(u, Aabb::new(Corner::new(1, 5, 3), Corner::new(10, 9, 8)));
    assert_eq!(u, b.union(&a));
    assert!(u.contains(&a));
    assert!(u.contains(&b));
    assert!(!a.contains(&u));
}

#[test]
fn union_with_itself_is_itself() {
    let a = Aabb::new(point(-2.0, 0.5, 3.0), point(-1.0, 4.0, 3.5));
    assert_eq!(a.union(&a), a);
}

#[test]
fn contains_is_exact_on_shared_faces() {
    let outer = cube(10, 20);
    assert!(outer.contains(&cube(10, 20)));
    assert!(outer.contains(&cube(12, 18)));
    assert!(!outer.contains(&cube(9, 18)));
    assert!(!outer.contains(&cube(12, 21)));
}

#[test]
fn corner_get_reads_each_axis() {
    let c = Corner::new(5, 6, 7);
    assert_eq!(c.get(0), 5);
    assert_eq!(c.get(1), 6);
    assert_eq!(c.get(2), 7);
}

#[test]
fn enclosing_box_of_empty_list_is_none() {
    assert_eq!(enclosing_box(&vec![]), None);
    assert_eq!(enclosing_box(&vec![None, None]), None);
}

#[test]
fn enclosing_box_skips_primitives_without_box() {
    let boxes = vec![None, Some(cube(5, 6)), None, Some(cube(1, 3)), Some(cube(2, 9))];
    assert_eq!(enclosing_box(&boxes), Some(cube(1, 9)));
    assert_eq!(enclosing_box(&vec![Some(cube(4, 4))]), Some(cube(4, 4)));
}
