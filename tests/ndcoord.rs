use grid_rewrite::ndcoord::Coord;

#[test]
fn eq() {
    assert_eq!(Coord::new_4d(1, 2, 3, 4), Coord::new_4d(1, 2, 3, 4));
    assert!(Coord::new_4d(1, 2, 3, 4) != Coord::new_4d(-100, 2, 3, 4));
}

#[test]
fn add() {
    assert_eq!(
        Coord::new_4d(1, 2, 3, 4) + Coord::new_4d(5, 6, 7, 8),
        Coord::new_4d(6, 8, 10, 12)
    );
}

#[test]
fn sub() {
    assert_eq!(
        Coord::new_4d(1, 2, 3, 4) - Coord::new_4d(0, 2, 4, 8),
        Coord::new_4d(1, 0, -1, -4)
    );
}

#[test]
fn iter_origin() {
    let mut i = Coord::new_3d(0, 0, 0).iter_volume(&Coord::new_3d(3, 3, 3));
    for z in 0..3 {
        for y in 0..3 {
            for x in 0..3 {
                assert_eq!(i.next(), Some(Coord::new_3d(x, y, z)));
            }
        }
    }
    assert_eq!(i.next(), None);
}

#[test]
fn iter_neg_1() {
    let mut i = Coord::new_3d(-1, -1, -1).iter_volume(&Coord::new_3d(3, 3, 3));
    for z in -1..2 {
        for y in -1..2 {
            for x in -1..2 {
                assert_eq!(i.next(), Some(Coord::new_3d(x, y, z)));
            }
        }
    }
    assert_eq!(i.next(), None);
}

#[test]
fn iter() {
    let mut i = Coord::new_4d(-1, -2, -3, -4).iter_volume(&Coord::new_4d(10, 10, 10, 10));
    for w in -4..6 {
        for z in -3..7 {
            for y in -2..8 {
                for x in -1..9 {
                    assert_eq!(i.next(), Some(Coord::new_4d(x, y, z, w)));
                }
            }
        }
    }
    assert_eq!(i.next(), None);
}

#[test]
fn volume_is_product_of_axes() {
    assert_eq!(Coord::new_3d(2, 3, 4).volume(), 24);
    assert_eq!(Coord::new_2d(7, 0).volume(), 0);
    assert_eq!(Coord::new_1d(5).volume(), 5);
    assert_eq!(Coord::new([]).volume(), 1);
}

#[test]
fn iter_yields_volume_unique_points_in_bounds() {
    let size = Coord::new_3d(2, 3, 4);
    let begin = Coord::new_3d(-1, 5, 0);
    let mut i = begin.iter_volume(&size);
    let mut seen: Vec<Coord<3>> = Vec::new();
    while let Some(c) = i.next() {
        let offset = c - begin;
        assert!(offset.axes.iter().zip(size.axes.iter()).all(|(o, s)| 0 <= *o && *o < *s));
        assert!(!seen.contains(&c));
        seen.push(c);
    }
    assert_eq!(seen.len(), size.volume());
    assert_eq!(i.next(), None);
}

#[test]
fn iter_empty_box_yields_nothing() {
    let mut i = Coord::new_2d(0, 0).iter_volume(&Coord::new_2d(3, 0));
    assert_eq!(i.next(), None);
    assert_eq!(i.next(), None);
}

#[test]
fn iter_zero_dimensions_yields_one_point() {
    let mut i = Coord::new([]).iter_volume(&Coord::new([]));
    assert_eq!(i.next(), Some(Coord::new([])));
    assert_eq!(i.next(), None);
}
