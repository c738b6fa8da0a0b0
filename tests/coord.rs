use grid_rewrite::coord::{Coord, CoordIter};

#[test]
fn cartesian_iter_1d() {
    let mut i = 3usize.cartesian_iter();
    assert_eq!(i.next(), Some(0));
    assert_eq!(i.next(), Some(1));
    assert_eq!(i.next(), Some(2));
    assert_eq!(i.next(), None);
}

#[test]
fn cartesian_iter_2d() {
    let mut i = (2usize, 2usize).cartesian_iter();
    assert_eq!(i.next(), Some((0, 0)));
    assert_eq!(i.next(), Some((1, 0)));
    assert_eq!(i.next(), Some((0, 1)));
    assert_eq!(i.next(), Some((1, 1)));
    assert_eq!(i.next(), None);
}

#[test]
fn cartesian_is_for_loop() {
    let mut i = (10usize, 10usize).cartesian_iter();
    for y in 0..10 {
        for x in 0..10 {
            assert_eq!(i.next(), Some((x, y)));
        }
    }
}

#[test]
fn rotate_1d() {
    let x: usize = 1;
    let grid: usize = 5;

    assert_eq!(x.rotated(0, &grid), 1);
    assert_eq!(x.rotated(1, &grid), 3);

    // wrap around rotations
    assert_eq!(x.rotated(0, &grid), x.rotated(2, &grid));
}

#[test]
fn rotate_2d() {
    let x: (usize, usize) = (0, 0);
    let grid: (usize, usize) = (3, 3);

    assert_eq!(x.rotated(0, &grid), (0, 0));
    assert_eq!(x.rotated(1, &grid), (2, 0));
    assert_eq!(x.rotated(2, &grid), (2, 2));
    assert_eq!(x.rotated(3, &grid), (0, 2));

    // wrap around rotations
    assert_eq!(x.rotated(0, &grid), x.rotated(4, &grid));

    let x: (usize, usize) = (1, 0);

    assert_eq!(x.rotated(0, &grid), (1, 0));
    assert_eq!(x.rotated(1, &grid), (2, 1));
    assert_eq!(x.rotated(2, &grid), (1, 2));
    assert_eq!(x.rotated(3, &grid), (0, 1));
}

#[test]
fn cartesian_iter_2d_yields_volume_unique_in_bounds() {
    let extent: (usize, usize) = (3, 5);
    let mut i: CoordIter<(usize, usize)> = extent.cartesian_iter();
    let mut seen: Vec<(usize, usize)> = Vec::new();
    while let Some(c) = i.next() {
        assert!(c.0 < extent.0 && c.1 < extent.1);
        assert!(!seen.contains(&c));
        seen.push(c);
    }
    assert_eq!(seen.len(), extent.extent());
    assert_eq!(i.next(), None);
}

#[test]
fn cartesian_iter_empty_extent() {
    let mut i = (0usize, 4usize).cartesian_iter();
    assert_eq!(i.next(), None);
    let mut j = 0usize.cartesian_iter();
    assert_eq!(j.next(), None);
}

#[test]
fn rotation_2d_group_action() {
    let grid: (usize, usize) = (5, 5);
    for x in 0..5usize {
        for y in 0..5usize {
            let c = (x, y);
            assert_eq!(c.rotated(0, &grid), c);
            let four = c
                .rotated(1, &grid)
                .rotated(1, &grid)
                .rotated(1, &grid)
                .rotated(1, &grid);
            assert_eq!(four, c);
            for a in 0..6usize {
                for b in 0..6usize {
                    assert_eq!(c.rotated(a, &grid).rotated(b, &grid), c.rotated(a + b, &grid));
                }
            }
        }
    }
}

#[test]
fn rotation_1d_group_action() {
    let grid: usize = 7;
    for c in 0..7usize {
        assert_eq!(c.rotated(0, &grid), c);
        assert_eq!(c.rotated(1, &grid).rotated(1, &grid), c);
        assert_eq!(c.rotated(1, &grid), 6 - c);
    }
}

#[test]
fn flat_index_and_extent() {
    assert_eq!((3usize, 4usize).extent(), 12);
    assert_eq!((2usize, 3usize).to_flat(&(3usize, 4usize)), 11);
    assert_eq!((0usize, 1usize).to_flat(&(3usize, 4usize)), 1);
    assert_eq!(9usize.extent(), 9);
    assert_eq!(4usize.to_flat(&9usize), 4);
    assert_eq!(<(usize, usize)>::canonical_rotation_times(7), 3);
    assert_eq!(<usize>::canonical_rotation_times(7), 1);
}
