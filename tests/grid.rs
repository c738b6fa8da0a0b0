use grid_rewrite::grid::Grid;

#[test]
fn test_rotation_1d() {
    let g: Grid<usize> = Grid::new(vec![1, 2, 3], (3, 1));
    assert_eq!(*g.cell_at((0, 0)), 1);
    assert_eq!(*g.cell_at((1, 0)), 2);
    assert_eq!(*g.cell_at((2, 0)), 3);
}

#[test]
fn flat_index_puts_second_axis_fastest() {
    // size (2, 3): the cell at (x, y) sits at index 3 * x + y
    let g: Grid<u8> = Grid::new(vec![0, 1, 2, 3, 4, 5], (2, 3));
    assert_eq!(*g.cell_at((0, 2)), 2);
    assert_eq!(*g.cell_at((1, 0)), 3);
    assert_eq!(*g.cell_at((1, 2)), 5);
    assert_eq!(g.size(), (2, 3));
}

#[test]
fn rotated_view_reads_through_rotation() {
    let g: Grid<u8> = Grid::new(vec![0, 1, 2, 3, 4, 5, 6, 7, 8], (3, 3));
    let v = g.with_rotation(1);
    // (0, 0) rotated once is (2, 0), which holds 3 * 2 + 0
    assert_eq!(*v.cell_at((0, 0)), 6);
    let v = g.with_rotation(2);
    assert_eq!(*v.cell_at((0, 0)), 8);
    let v = g.with_rotation(4);
    assert_eq!(*v.cell_at((1, 2)), 5);
}

#[test]
fn rotate_moves_each_cell_to_its_rotated_coordinate() {
    let g: Grid<u8> = Grid::new(vec![0, 1, 2, 3, 4, 5, 6, 7, 8], (3, 3));
    let r = g.rotate(1);
    // the cell at (0, 0) moves to (2, 0); the cell at (1, 0) moves to (2, 1)
    assert_eq!(*r.cell_at((2, 0)), 0);
    assert_eq!(*r.cell_at((2, 1)), 3);
    assert_eq!(*r.cell_at((1, 1)), 4);
    let back = r.rotate(3);
    for x in 0..3 {
        for y in 0..3 {
            assert_eq!(*back.cell_at((x, y)), *g.cell_at((x, y)));
        }
    }
    let twice = g.rotate(1).rotate(1);
    let half = g.rotate(2);
    for x in 0..3 {
        for y in 0..3 {
            assert_eq!(*twice.cell_at((x, y)), *half.cell_at((x, y)));
        }
    }
}

#[test]
fn filled_and_set() {
    let mut g: Grid<char> = Grid::filled((4, 2), '.');
    g.set((3, 1), '#');
    assert_eq!(*g.cell_at((3, 1)), '#');
    assert_eq!(*g.cell_at((3, 0)), '.');
    assert_eq!(*g.cell_at((0, 1)), '.');
}
