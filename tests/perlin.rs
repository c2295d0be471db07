use raytracer::{Perlin, POINT_COUNT};

fn lattice() -> Perlin<usize> {
    Perlin::new((0..POINT_COUNT).collect())
}

#[test]
fn lattice_index_stays_in_table() {
    let p = lattice();
    for i in -300i64..300 {
        let r = p.lattice_index(i, i * 7 - 5, 3 - i);
        assert!(r < POINT_COUNT);
    }
}

#[test]
fn lattice_index_repeats_every_256_cells() {
    let p = lattice();
    for i in -20i64..20 {
        assert_eq!(p.lattice_index(i, 4, 9), p.lattice_index(i + 256, 4, 9));
        assert_eq!(p.lattice_index(3, i, 9), p.lattice_index(3, i - 512, 9));
        assert_eq!(p.lattice_index(3, 4, i), p.lattice_index(3, 4, i + 256 * 1000));
    }
    assert_eq!(p.lattice_index(-1, 0, 0), p.lattice_index(255, 0, 0));
    assert_eq!(
        p.lattice_index(i64::MIN, i64::MAX, 0),
        p.lattice_index(0, 255, 0)
    );
}

#[test]
fn each_axis_table_is_a_permutation() {
    let p = lattice();
    // With the other two coordinates on one cell, the index takes every value
    // once as one coordinate runs over the cells.
    for axis in 0..3 {
        let mut seen = vec![false; POINT_COUNT];
        for c in 0..POINT_COUNT as i64 {
            let r = match axis {
                0 => p.lattice_index(c, 0, 0),
                1 => p.lattice_index(0, c, 0),
                _ => p.lattice_index(0, 0, c),
            };
            assert!(!seen[r]);
            seen[r] = true;
        }
    }
}

#[test]
fn gradient_is_the_table_entry_at_the_lattice_index() {
    let p = lattice();
    for i in -10i64..10 {
        let at = p.lattice_index(i, 2 * i, -i);
        assert_eq!(*p.gradient(i, 2 * i, -i), at);
    }
}

#[test]
fn permutations_are_drawn_at_random() {
    // Were the x table left in order, `index(c, 0, 0) ^ index(0, 0, 0)` would
    // be `c` for every cell; a shuffled table keeps that for all 256 cells
    // with negligible probability.
    let p = lattice();
    let base = p.lattice_index(0, 0, 0);
    let unshuffled = (0..POINT_COUNT as i64).all(|c| p.lattice_index(c, 0, 0) ^ base == c as usize);
    assert!(!unshuffled);
}
