use grid_rewrite::grid::Grid;
use grid_rewrite::rules::{Patch, PatchOrientation, ReplacementRule, Tile};

const R: Option<Tile> = Some(Tile::Red);
const K: Option<Tile> = Some(Tile::Black);
const W: Option<Tile> = Some(Tile::White);
const G: Option<Tile> = Some(Tile::Green);
const B: Option<Tile> = Some(Tile::Blue);
const X: Option<Tile> = None;

fn has(matches: &[PatchOrientation], rotation: usize, position: (isize, isize)) -> bool {
    matches
        .iter()
        .any(|m| m.rotation_times == rotation && m.position == position)
}

/// The grid cells on which the concrete cells of `patch` land for match `m`.
fn covered(patch: &Patch, m: &PatchOrientation) -> Vec<(isize, isize)> {
    let rotated = patch.rotate(m.rotation_times);
    let (s, _) = rotated.size();
    let mut out = Vec::new();
    for x in 0..s {
        for y in 0..s {
            if rotated.cell_at((x, y)).is_some() {
                out.push((x as isize + m.position.0, y as isize + m.position.1));
            }
        }
    }
    out
}

fn scenario_grid() -> Grid<Tile> {
    let mut g = Grid::filled((8, 4), Tile::Black);
    g.set((0, 0), Tile::Red);
    g.set((0, 1), Tile::Red);
    g.set((2, 1), Tile::Red);
    g
}

#[test]
fn scenario_matches_include_origin_and_skip_black_cell() {
    let g = scenario_grid();
    let patch: Patch = Grid::new(vec![R, R, X, X], (2, 2));
    let matches = g.get_patch_matches(&patch);
    assert!(has(&matches, 0, (0, 0)));
    for m in &matches {
        assert!(!covered(&patch, m).contains(&(2, 0)));
        for (x, y) in covered(&patch, m) {
            assert_eq!(*g.cell_at((x as usize, y as usize)), Tile::Red);
        }
    }
}

#[test]
fn check_patch_at_rejects_concrete_cell_outside_grid() {
    let g = scenario_grid();
    let patch: Patch = Grid::new(vec![R, R, X, X], (2, 2));
    assert!(g.check_patch_at(&patch, 0, 0));
    assert!(!g.check_patch_at(&patch, 0, -1));
    assert!(!g.check_patch_at(&patch, 7, 3));
    assert!(!g.check_patch_at(&patch, 1, 0));
    // the wildcard row may hang off the grid
    assert!(g.check_patch_at(&patch, 2, 1) == false);
    let wild: Patch = Grid::new(vec![X, X, X, X], (2, 2));
    assert!(g.check_patch_at(&wild, -1, -1));
}

#[test]
fn all_wildcard_patch_matches_every_offset() {
    let g: Grid<Tile> = Grid::filled((3, 2), Tile::Black);
    let wild: Patch = Grid::new(vec![X, X, X, X], (2, 2));
    // offsets -1..3 by -1..2, for each of four rotations
    assert_eq!(g.get_patch_matches(&wild).len(), 4 * 4 * 3);
}

#[test]
fn matches_come_rotation_major_then_scan_order() {
    let g: Grid<Tile> = Grid::filled((2, 2), Tile::Green);
    let patch: Patch = Grid::new(vec![G], (1, 1));
    let matches = g.get_patch_matches(&patch);
    let got: Vec<(usize, (isize, isize))> =
        matches.iter().map(|m| (m.rotation_times, m.position)).collect();
    let mut want = Vec::new();
    for r in 0..4 {
        for y in 0..2 {
            for x in 0..2 {
                want.push((r, (x, y)));
            }
        }
    }
    assert_eq!(got, want);
}

#[test]
fn replace_at_writes_rotated_concrete_cells_only() {
    let mut g: Grid<Tile> = Grid::filled((4, 4), Tile::Black);
    g.set((1, 2), Tile::Pink);
    let patch: Patch = Grid::new(vec![W, X, X, X], (2, 2));
    // rotation 1 moves patch cell (0, 0) to (1, 0)
    g.replace_at(&patch, &PatchOrientation { rotation_times: 1, position: (1, 2) });
    assert_eq!(*g.cell_at((2, 2)), Tile::White);
    assert_eq!(*g.cell_at((1, 2)), Tile::Pink);
    assert_eq!(*g.cell_at((1, 3)), Tile::Black);
    assert_eq!(*g.cell_at((2, 3)), Tile::Black);
}

#[test]
fn replace_then_match_finds_written_patch() {
    let patch: Patch = Grid::new(vec![R, G, B, W], (2, 2));
    for r in 0..4 {
        let mut g: Grid<Tile> = Grid::filled((5, 4), Tile::Black);
        let m = PatchOrientation { rotation_times: r, position: (2, 1) };
        g.replace_at(&patch, &m);
        let matches = g.get_patch_matches(&patch);
        assert!(has(&matches, r, (2, 1)));
    }
}

#[test]
fn priority_engine_skips_rule_without_matches() {
    let mut g: Grid<Tile> = Grid::filled((4, 4), Tile::Black);
    g.set((1, 1), Tile::Red);
    g.set((1, 2), Tile::Green);
    let rule_a = ReplacementRule::new(Grid::new(vec![B], (1, 1)), Grid::new(vec![K], (1, 1)));
    let rule_b = ReplacementRule::new(
        Grid::new(vec![R, G, X, X], (2, 2)),
        Grid::new(vec![W, X, X, X], (2, 2)),
    );
    assert_eq!(g.get_patch_matches(&rule_a.find).len(), 0);
    assert_eq!(g.get_patch_matches(&rule_b.find).len(), 1);
    let before = g.rotate(0);
    let rules = vec![rule_a, rule_b];
    assert!(g.apply_one_step(&rules, 12345));
    for x in 0..4 {
        for y in 0..4 {
            let want = if (x, y) == (1, 1) { Tile::White } else { *before.cell_at((x, y)) };
            assert_eq!(*g.cell_at((x, y)), want);
        }
    }
}

#[test]
fn priority_engine_first_rule_wins() {
    let mut g: Grid<Tile> = Grid::filled((3, 3), Tile::Black);
    g.set((1, 1), Tile::Red);
    let first = ReplacementRule::new(Grid::new(vec![R], (1, 1)), Grid::new(vec![B], (1, 1)));
    let second = ReplacementRule::new(Grid::new(vec![R], (1, 1)), Grid::new(vec![G], (1, 1)));
    assert!(g.apply_one_step(&[first, second], 0));
    assert_eq!(*g.cell_at((1, 1)), Tile::Blue);
}

#[test]
fn no_rule_matches_leaves_grid_unchanged() {
    let mut g: Grid<Tile> = Grid::filled((3, 3), Tile::Black);
    let rule = ReplacementRule::new(Grid::new(vec![R], (1, 1)), Grid::new(vec![B], (1, 1)));
    assert!(!g.apply_one_step(&[rule], 3));
    let rule = ReplacementRule::new(Grid::new(vec![R], (1, 1)), Grid::new(vec![B], (1, 1)));
    assert!(!g.priority_random_replace(&[rule]));
    let rule = ReplacementRule::new(Grid::new(vec![R], (1, 1)), Grid::new(vec![B], (1, 1)));
    assert!(!g.single_random_replace(&rule));
    assert!(!g.replace_with_pick(&rule, 0));
    for x in 0..3 {
        for y in 0..3 {
            assert_eq!(*g.cell_at((x, y)), Tile::Black);
        }
    }
}

fn three_reds() -> Grid<Tile> {
    let mut g: Grid<Tile> = Grid::filled((5, 1), Tile::Black);
    g.set((0, 0), Tile::Red);
    g.set((2, 0), Tile::Red);
    g.set((4, 0), Tile::Red);
    g
}

fn red_position(g: &Grid<Tile>) -> usize {
    let mut found = Vec::new();
    for x in 0..5 {
        if *g.cell_at((x, 0)) == Tile::White {
            found.push(x);
        }
    }
    assert_eq!(found.len(), 1);
    found[0]
}

#[test]
fn controlled_picks_select_every_position_uniformly() {
    let mut counts = [0usize; 5];
    let trials = 1200;
    for pick in 0..trials {
        let mut g = three_reds();
        let rule = ReplacementRule::new(Grid::new(vec![R], (1, 1)), Grid::new(vec![W], (1, 1)));
        assert!(g.replace_with_pick(&rule, pick));
        counts[red_position(&g)] += 1;
    }
    assert_eq!(counts, [400, 0, 400, 0, 400]);
}

#[test]
fn random_picks_reach_every_position() {
    let mut counts = [0usize; 5];
    for _ in 0..300 {
        let mut g = three_reds();
        let rule = ReplacementRule::new(Grid::new(vec![R], (1, 1)), Grid::new(vec![W], (1, 1)));
        assert!(g.single_random_replace(&rule));
        counts[red_position(&g)] += 1;
    }
    assert!(counts[0] > 0 && counts[2] > 0 && counts[4] > 0);
    assert_eq!(counts[0] + counts[2] + counts[4], 300);
}

#[test]
fn random_step_fires_first_matching_rule() {
    let mut g = three_reds();
    let skip = ReplacementRule::new(Grid::new(vec![B], (1, 1)), Grid::new(vec![K], (1, 1)));
    let fire = ReplacementRule::new(Grid::new(vec![R], (1, 1)), Grid::new(vec![W], (1, 1)));
    assert!(g.priority_random_replace(&[skip, fire]));
    let p = red_position(&g);
    assert!(p == 0 || p == 2 || p == 4);
}

#[test]
fn default_tile_is_black() {
    assert_eq!(Tile::default(), Tile::Black);
}

#[test]
fn default_grid_is_black_and_scans_every_cell() {
    let g = Grid::from_default((3, 2));
    let mut it = g.cartesian_iter();
    let mut n = 0;
    while let Some(c) = it.next() {
        assert_eq!(*g.cell_at(c), Tile::Black);
        n += 1;
    }
    assert_eq!(n, 6);
}
