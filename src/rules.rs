//! Wildcard patch matching over a grid under its rotations, and the rule engine
//! that rewrites one match at a time.
use vstd::prelude::*;
use crate::coord::Coord;
use crate::grid::{inverse_rotation, Grid};

verus! {

/// The value of a grid cell.
#[derive(Debug, Clone, Copy, PartialEq, Eq, Structural)]
pub enum Tile {
    Black,
    DarkBlue,
    DarkPurple,
    DarkGreen,
    Brown,
    DarkGrey,
    LightGrey,
    White,
    Red,
    Orange,
    Yellow,
    Green,
    Blue,
    Lavender,
    Pink,
    LightPeach,
}

impl Default for Tile {
    fn default() -> (r: Self)
        ensures
            r == Tile::Black,
    {
        Tile::Black
    }
}

/// A find or replace template: `None` is a wildcard, which matches anything and is left
/// untouched by replacement; `Some(v)` must equal `v` to match and writes `v` on replace.
pub type Patch = Grid<Option<Tile>>;

/// Where a patch matched: its rotation and the offset of its origin in the grid (which may be
/// negative).
#[derive(Debug, Clone, Copy)]
pub struct PatchOrientation {
    pub rotation_times: usize,
    pub position: (isize, isize),
}

/// A find patch and the replace patch that is written where it matches.
pub struct ReplacementRule {
    pub find: Patch,
    pub replace: Patch,
}

impl ReplacementRule {
    /// Both patches are square grids of the same extent.
    pub open spec fn wf(&self) -> bool {
        &&& self.find.wf()
        &&& self.replace.wf()
        &&& self.find.dims() == self.replace.dims()
        &&& self.find.dims().0 == self.find.dims().1
    }

    pub fn new(find: Patch, replace: Patch) -> (r: Self)
        requires
            find.wf(),
            replace.wf(),
            find.dims() == replace.dims(),
            find.dims().0 == find.dims().1,
        ensures
            r.wf(),
            r.find == find,
            r.replace == replace,
    {
        Self { find, replace }
    }
}

/// `(x, y)` lies inside `g`.
pub open spec fn in_bounds(g: Grid<Tile>, x: int, y: int) -> bool {
    0 <= x < g.dims().0 && 0 <= y < g.dims().1
}

/// The cell at `q` of `patch` turned `r` quarter turns.
pub open spec fn rotated_cell(patch: Patch, r: nat, q: (usize, usize)) -> Option<Tile> {
    patch.at(q.spec_rotated(inverse_rotation(r), patch.dims()))
}

/// Every concrete cell of `patch`, its origin placed at `(ox, oy)`, lands inside `g` on a cell
/// of the same value.
pub open spec fn patch_fits(g: Grid<Tile>, patch: Patch, ox: int, oy: int) -> bool {
    forall|q: (usize, usize)|
        patch.contains(q) && (#[trigger] patch.at(q)) is Some ==> in_bounds(g, q.0 + ox, q.1 + oy)
            && g.at(((q.0 + ox) as usize, (q.1 + oy) as usize)) == patch.at(q)->Some_0
}

/// `patch` turned `r` quarter turns fits `g` at `(ox, oy)`.
pub open spec fn rotated_fits(g: Grid<Tile>, patch: Patch, r: nat, ox: int, oy: int) -> bool {
    forall|q: (usize, usize)|
        patch.contains(q) && (#[trigger] rotated_cell(patch, r, q)) is Some ==> in_bounds(
            g,
            q.0 + ox,
            q.1 + oy,
        ) && g.at(((q.0 + ox) as usize, (q.1 + oy) as usize)) == rotated_cell(patch, r, q)->Some_0
}

/// The least offset scanned on each axis: the patch overlaps the grid by one cell.
pub open spec fn first_offset(patch: Patch) -> int {
    1 - patch.dims().0
}

/// The match found at rotation `r` and offset `(ox, oy)`, if the rotated patch fits there.
pub open spec fn match_at(g: Grid<Tile>, patch: Patch, r: nat, ox: int, oy: int) -> Seq<
    PatchOrientation,
> {
    if rotated_fits(g, patch, r, ox, oy) {
        seq![PatchOrientation { rotation_times: r as usize, position: (ox as isize, oy as isize) }]
    } else {
        Seq::empty()
    }
}

/// The matches at rotation `r` in row `oy`, over the first `nx` offsets of the row.
pub open spec fn row_matches(g: Grid<Tile>, patch: Patch, r: nat, oy: int, nx: nat) -> Seq<
    PatchOrientation,
>
    decreases nx,
{
    if nx == 0 {
        Seq::empty()
    } else {
        row_matches(g, patch, r, oy, (nx - 1) as nat) + match_at(
            g,
            patch,
            r,
            first_offset(patch) + nx - 1,
            oy,
        )
    }
}

/// The number of offsets scanned along the first axis.
pub open spec fn row_len(g: Grid<Tile>, patch: Patch) -> nat {
    (g.dims().0 + patch.dims().0 - 1) as nat
}

/// The number of offsets scanned along the second axis.
pub open spec fn col_len(g: Grid<Tile>, patch: Patch) -> nat {
    (g.dims().1 + patch.dims().0 - 1) as nat
}

/// The matches at rotation `r` over the first `ny` rows of offsets.
pub open spec fn rotation_matches(g: Grid<Tile>, patch: Patch, r: nat, ny: nat) -> Seq<
    PatchOrientation,
>
    decreases ny,
{
    if ny == 0 {
        Seq::empty()
    } else {
        rotation_matches(g, patch, r, (ny - 1) as nat) + row_matches(
            g,
            patch,
            r,
            first_offset(patch) + ny - 1,
            row_len(g, patch),
        )
    }
}

/// The matches of the first `nr` rotations.
pub open spec fn matches_upto(g: Grid<Tile>, patch: Patch, nr: nat) -> Seq<PatchOrientation>
    decreases nr,
{
    if nr == 0 {
        Seq::empty()
    } else {
        matches_upto(g, patch, (nr - 1) as nat) + rotation_matches(
            g,
            patch,
            (nr - 1) as nat,
            col_len(g, patch),
        )
    }
}

/// Every match of `patch` in `g`: rotation-major, then offsets in scan order (first axis
/// fastest), each offset letting the patch overlap the grid.
pub open spec fn patch_matches(g: Grid<Tile>, patch: Patch) -> Seq<PatchOrientation> {
    matches_upto(g, patch, 4)
}

/// The cell at `c` after writing `patch` turned by `m`'s rotation at `m`'s offset: concrete
/// cells overwrite, wildcards keep what was there.
pub open spec fn replaced_cell(g: Grid<Tile>, patch: Patch, m: PatchOrientation, c: (usize, usize)) -> Tile {
    let qx = c.0 - m.position.0;
    let qy = c.1 - m.position.1;
    let q = (qx as usize, qy as usize);
    if 0 <= qx < patch.dims().0 && 0 <= qy < patch.dims().1 && rotated_cell(
        patch,
        m.rotation_times as nat,
        q,
    ) is Some {
        rotated_cell(patch, m.rotation_times as nat, q)->Some_0
    } else {
        g.at(c)
    }
}

/// The patch is square and not empty, and the grid and the patch are small enough for every
/// scanned offset to fit in an `isize`.
pub open spec fn scannable(g: Grid<Tile>, patch: Patch) -> bool {
    &&& g.wf()
    &&& patch.wf()
    &&& patch.dims().0 == patch.dims().1
    &&& patch.dims().0 >= 1
    &&& g.dims().0 + patch.dims().0 <= isize::MAX
    &&& g.dims().1 + patch.dims().0 <= isize::MAX
}

/// The concrete cell `q` of `patch`, placed at `(ox, oy)`, lands inside `g` on a cell of the
/// same value.
pub open spec fn cell_fits(g: Grid<Tile>, patch: Patch, q: (usize, usize), ox: int, oy: int) -> bool {
    patch.at(q) is Some ==> in_bounds(g, q.0 + ox, q.1 + oy) && g.at(
        ((q.0 + ox) as usize, (q.1 + oy) as usize),
    ) == patch.at(q)->Some_0
}

impl Grid<Tile> {
    /// The grid of extent `size` with the default tile in every cell.
    pub fn from_default(size: (usize, usize)) -> (r: Self)
        requires
            size.0 * size.1 <= usize::MAX,
        ensures
            r.wf(),
            r.dims() == size,
            forall|c: (usize, usize)| #[trigger] r.contains(c) ==> r.at(c) == Tile::Black,
    {
        Self::filled(size, Tile::default())
    }

    /// Whether `patch`, its origin placed at `(offset_x, offset_y)`, is consistent with the
    /// grid: wildcards match anything, and every concrete cell must land inside the grid on a
    /// cell of the same value.
    pub fn check_patch_at(&self, patch: &Patch, offset_x: isize, offset_y: isize) -> (r: bool)
        requires
            self.wf(),
            patch.wf(),
            patch.dims().0 <= isize::MAX,
            patch.dims().1 <= isize::MAX,
            offset_x + patch.dims().0 <= isize::MAX,
            offset_y + patch.dims().1 <= isize::MAX,
        ensures
            r == patch_fits(*self, *patch, offset_x as int, offset_y as int),
    {
        let size = self.size();
        let psize = patch.size();
        let ghost ox = offset_x as int;
        let ghost oy = offset_y as int;
        let mut patch_y: usize = 0;
        while patch_y < psize.1
            invariant
                self.wf(),
                patch.wf(),
                size == self.dims(),
                psize == patch.dims(),
                psize.0 <= isize::MAX,
                psize.1 <= isize::MAX,
                offset_x + psize.0 <= isize::MAX,
                offset_y + psize.1 <= isize::MAX,
                ox == offset_x,
                oy == offset_y,
                patch_y <= psize.1,
                forall|q: (usize, usize)|
                    patch.contains(q) && q.1 < patch_y ==> #[trigger] cell_fits(
                        *self,
                        *patch,
                        q,
                        ox,
                        oy,
                    ),
            decreases psize.1 - patch_y,
        {
            let mut patch_x: usize = 0;
            while patch_x < psize.0
                invariant
                    self.wf(),
                    patch.wf(),
                    size == self.dims(),
                    psize == patch.dims(),
                    psize.0 <= isize::MAX,
                    psize.1 <= isize::MAX,
                    offset_x + psize.0 <= isize::MAX,
                    offset_y + psize.1 <= isize::MAX,
                    ox == offset_x,
                    oy == offset_y,
                    patch_y < psize.1,
                    patch_x <= psize.0,
                    forall|q: (usize, usize)|
                        patch.contains(q) && (q.1 < patch_y || (q.1 == patch_y && q.0 < patch_x))
                            ==> #[trigger] cell_fits(*self, *patch, q, ox, oy),
                decreases psize.0 - patch_x,
            {
                let q = (patch_x, patch_y);
                match patch.cell_at(q) {
                    // None is a 'dont care' value and matches anything
                    None => {},
                    Some(item) => {
                        let grid_x = patch_x as isize + offset_x;
                        let grid_y = patch_y as isize + offset_y;
                        // patch has a value but is outside of the grid, BAD!
                        if grid_x < 0 || grid_y < 0 || grid_x as usize >= size.0 || grid_y as usize
                            >= size.1 {
                            assert(!cell_fits(*self, *patch, q, ox, oy));
                            return false;
                        }
                        let grid_item = self.cell_at((grid_x as usize, grid_y as usize));
                        // if _any_ items fail to match, the whole patch fails
                        if *grid_item != *item {
                            assert(!cell_fits(*self, *patch, q, ox, oy));
                            return false;
                        }
                    },
                }
                assert(cell_fits(*self, *patch, q, ox, oy));
                patch_x = patch_x + 1;
            }
            patch_y = patch_y + 1;
        }
        proof {
            assert forall|q: (usize, usize)|
                patch.contains(q) && (#[trigger] patch.at(q)) is Some implies in_bounds(
                *self,
                q.0 + ox,
                q.1 + oy,
            ) && self.at(((q.0 + ox) as usize, (q.1 + oy) as usize)) == patch.at(q)->Some_0 by {
                assert(cell_fits(*self, *patch, q, ox, oy));
            }
        }
        true
    }
}

/// A patch that holds the cells of `patch` turned `r` quarter turns fits where the turned patch
/// fits.
proof fn lemma_rotated_copy_fits(g: Grid<Tile>, patch: Patch, rotated: Patch, r: nat, ox: int, oy: int)
    requires
        rotated.dims() == patch.dims(),
        forall|q: (usize, usize)| #[trigger] rotated.contains(q) ==> rotated.at(q) == rotated_cell(
            patch,
            r,
            q,
        ),
    ensures
        patch_fits(g, rotated, ox, oy) == rotated_fits(g, patch, r, ox, oy),
{
    if patch_fits(g, rotated, ox, oy) {
        assert forall|q: (usize, usize)|
            patch.contains(q) && (#[trigger] rotated_cell(patch, r, q)) is Some implies in_bounds(
            g,
            q.0 + ox,
            q.1 + oy,
        ) && g.at(((q.0 + ox) as usize, (q.1 + oy) as usize)) == rotated_cell(patch, r, q)->Some_0 by {
            assert(rotated.contains(q));
            assert(rotated.at(q) is Some);
        }
    }
    if rotated_fits(g, patch, r, ox, oy) {
        assert forall|q: (usize, usize)|
            rotated.contains(q) && (#[trigger] rotated.at(q)) is Some implies in_bounds(
            g,
            q.0 + ox,
            q.1 + oy,
        ) && g.at(((q.0 + ox) as usize, (q.1 + oy) as usize)) == rotated.at(q)->Some_0 by {
            assert(rotated_cell(patch, r, q) is Some);
        }
    }
}

impl Grid<Tile> {
    /// Every (rotation, offset) at which `patch` matches the grid: rotation-major, then the
    /// offsets in scan order, first axis fastest. The offsets run from `1 - size` to the grid's
    /// last cell on each axis, so that the patch overlaps the grid.
    pub fn get_patch_matches(&self, patch: &Patch) -> (r: Vec<PatchOrientation>)
        requires
            scannable(*self, *patch),
        ensures
            r@ == patch_matches(*self, *patch),
    {
        let size = self.size();
        let s = patch.size().0;
        let lo: isize = 1 - s as isize;
        let ghost g = *self;
        let ghost p = *patch;
        let mut matches: Vec<PatchOrientation> = Vec::new();
        let mut rotation_times: usize = 0;
        while rotation_times < 4
            invariant
                g == *self,
                p == *patch,
                scannable(g, p),
                size == g.dims(),
                s == p.dims().0,
                lo == first_offset(p),
                rotation_times <= 4,
                matches@ == matches_upto(g, p, rotation_times as nat),
            decreases 4 - rotation_times,
        {
            let rotated_patch = patch.rotate(rotation_times);
            let ghost before = matches@;
            let mut offset_y: isize = lo;
            while offset_y < size.1 as isize
                invariant
                    g == *self,
                    p == *patch,
                    scannable(g, p),
                    size == g.dims(),
                    s == p.dims().0,
                    lo == first_offset(p),
                    rotation_times < 4,
                    rotated_patch.wf(),
                    rotated_patch.dims() == p.dims(),
                    forall|q: (usize, usize)| #[trigger] rotated_patch.contains(q) ==> rotated_patch.at(q)
                        == rotated_cell(p, rotation_times as nat, q),
                    before == matches_upto(g, p, rotation_times as nat),
                    lo <= offset_y <= size.1,
                    matches@ == before + rotation_matches(
                        g,
                        p,
                        rotation_times as nat,
                        (offset_y - lo) as nat,
                    ),
                decreases size.1 - offset_y,
            {
                let ghost row_start = matches@;
                let mut offset_x: isize = lo;
                while offset_x < size.0 as isize
                    invariant
                        g == *self,
                        p == *patch,
                        scannable(g, p),
                        size == g.dims(),
                        s == p.dims().0,
                        lo == first_offset(p),
                        rotation_times < 4,
                        rotated_patch.wf(),
                        rotated_patch.dims() == p.dims(),
                        forall|q: (usize, usize)| #[trigger] rotated_patch.contains(q)
                            ==> rotated_patch.at(q) == rotated_cell(p, rotation_times as nat, q),
                        lo <= offset_y < size.1,
                        lo <= offset_x <= size.0,
                        row_start == before + rotation_matches(
                            g,
                            p,
                            rotation_times as nat,
                            (offset_y - lo) as nat,
                        ),
                        matches@ == row_start + row_matches(
                            g,
                            p,
                            rotation_times as nat,
                            offset_y as int,
                            (offset_x - lo) as nat,
                        ),
                    decreases size.0 - offset_x,
                {
                    proof {
                        lemma_rotated_copy_fits(
                            g,
                            p,
                            rotated_patch,
                            rotation_times as nat,
                            offset_x as int,
                            offset_y as int,
                        );
                    }
                    let ghost prev = matches@;
                    if self.check_patch_at(&rotated_patch, offset_x, offset_y) {
                        matches.push(
                            PatchOrientation { rotation_times, position: (offset_x, offset_y) },
                        );
                    }
                    proof {
                        let nx = (offset_x - lo) as nat;
                        assert(first_offset(p) + (nx + 1) - 1 == offset_x);
                        assert(row_matches(g, p, rotation_times as nat, offset_y as int, nx + 1)
                            == row_matches(g, p, rotation_times as nat, offset_y as int, nx)
                            + match_at(g, p, rotation_times as nat, offset_x as int, offset_y as int));
                        assert(matches@ =~= row_start + row_matches(
                            g,
                            p,
                            rotation_times as nat,
                            offset_y as int,
                            nx + 1,
                        ));
                    }
                    offset_x = offset_x + 1;
                }
                proof {
                    let ny = (offset_y - lo) as nat;
                    assert(first_offset(p) + (ny + 1) - 1 == offset_y);
                    assert((offset_x - lo) as nat == row_len(g, p));
                    assert(matches@ =~= before + rotation_matches(
                        g,
                        p,
                        rotation_times as nat,
                        ny + 1,
                    ));
                }
                offset_y = offset_y + 1;
            }
            proof {
                assert((offset_y - lo) as nat == col_len(g, p));
                assert(matches@ =~= matches_upto(g, p, rotation_times as nat + 1));
            }
            rotation_times = rotation_times + 1;
        }
        matches
    }
}

/// The patch cell that lands on `c` when the patch's origin is at `m`'s offset comes before
/// `(x, y)` in row order.
pub open spec fn lands_before(m: PatchOrientation, c: (usize, usize), x: int, y: int) -> bool {
    let qx = c.0 - m.position.0;
    let qy = c.1 - m.position.1;
    (0 <= qy < y && 0 <= qx) || (qy == y && 0 <= qx < x)
}

impl Grid<Tile> {
    /// Writes `replacement_patch`, turned by the orientation's rotation, with its origin at the
    /// orientation's offset: every concrete cell overwrites the grid cell under it, and wildcards
    /// leave the grid untouched. Cells that land outside the grid are not written.
    pub fn replace_at(&mut self, replacement_patch: &Patch, orientation: &PatchOrientation)
        requires
            old(self).wf(),
            replacement_patch.wf(),
            replacement_patch.dims().0 == replacement_patch.dims().1,
            replacement_patch.dims().0 <= isize::MAX,
            orientation.position.0 + replacement_patch.dims().0 <= isize::MAX,
            orientation.position.1 + replacement_patch.dims().0 <= isize::MAX,
        ensures
            final(self).wf(),
            final(self).dims() == old(self).dims(),
            forall|c: (usize, usize)| #[trigger] final(self).contains(c) ==> final(self).at(c)
                == replaced_cell(*old(self), *replacement_patch, *orientation, c),
    {
        let ghost g0 = *self;
        let ghost p = *replacement_patch;
        let ghost m = *orientation;
        let r = orientation.rotation_times;
        let rotated = replacement_patch.rotate(r);
        let size = self.size();
        let s = rotated.size().0;
        let mut y: usize = 0;
        while y < s
            invariant
                self.wf(),
                self.dims() == g0.dims(),
                size == g0.dims(),
                p == *replacement_patch,
                m == *orientation,
                r == m.rotation_times,
                rotated.wf(),
                rotated.dims() == p.dims(),
                s == p.dims().0,
                p.dims().0 == p.dims().1,
                s <= isize::MAX,
                m.position.0 + s <= isize::MAX,
                m.position.1 + s <= isize::MAX,
                forall|q: (usize, usize)| #[trigger] rotated.contains(q) ==> rotated.at(q)
                    == rotated_cell(p, r as nat, q),
                y <= s,
                forall|c: (usize, usize)| #[trigger] self.contains(c) ==> self.at(c) == if lands_before(
                    m,
                    c,
                    0,
                    y as int,
                ) {
                    replaced_cell(g0, p, m, c)
                } else {
                    g0.at(c)
                },
            decreases s - y,
        {
            let mut x: usize = 0;
            while x < s
                invariant
                    self.wf(),
                    self.dims() == g0.dims(),
                    size == g0.dims(),
                    p == *replacement_patch,
                    m == *orientation,
                    r == m.rotation_times,
                    rotated.wf(),
                    rotated.dims() == p.dims(),
                    s == p.dims().0,
                    p.dims().0 == p.dims().1,
                    s <= isize::MAX,
                    m.position.0 + s <= isize::MAX,
                    m.position.1 + s <= isize::MAX,
                    forall|q: (usize, usize)| #[trigger] rotated.contains(q) ==> rotated.at(q)
                        == rotated_cell(p, r as nat, q),
                    y < s,
                    x <= s,
                    forall|c: (usize, usize)| #[trigger] self.contains(c) ==> self.at(c) == if lands_before(
                        m,
                        c,
                        x as int,
                        y as int,
                    ) {
                        replaced_cell(g0, p, m, c)
                    } else {
                        g0.at(c)
                    },
                decreases s - x,
            {
                let ghost before = *self;
                let q = (x, y);
                assert(rotated.contains(q));
                if let Some(item) = rotated.cell_at(q) {
                    let grid_x = x as isize + orientation.position.0;
                    let grid_y = y as isize + orientation.position.1;
                    if grid_x >= 0 && grid_y >= 0 && (grid_x as usize) < size.0 && (grid_y as usize)
                        < size.1 {
                        let target = (grid_x as usize, grid_y as usize);
                        self.set(target, *item);
                        proof {
                            assert forall|c: (usize, usize)| #[trigger] self.contains(c) implies self.at(c)
                                == if lands_before(m, c, x + 1, y as int) {
                                replaced_cell(g0, p, m, c)
                            } else {
                                g0.at(c)
                            } by {
                                assert(before.contains(c));
                            }
                        }
                    } else {
                        proof {
                            assert forall|c: (usize, usize)| #[trigger] self.contains(c) implies self.at(c)
                                == if lands_before(m, c, x + 1, y as int) {
                                replaced_cell(g0, p, m, c)
                            } else {
                                g0.at(c)
                            } by {
                                assert(before.contains(c));
                            }
                        }
                    }
                } else {
                    proof {
                        assert forall|c: (usize, usize)| #[trigger] self.contains(c) implies self.at(c)
                            == if lands_before(m, c, x + 1, y as int) {
                            replaced_cell(g0, p, m, c)
                        } else {
                            g0.at(c)
                        } by {
                            assert(before.contains(c));
                        }
                    }
                }
                x = x + 1;
            }
            proof {
                assert forall|c: (usize, usize)| #[trigger] self.contains(c) implies self.at(c)
                    == if lands_before(m, c, 0, y + 1) {
                    replaced_cell(g0, p, m, c)
                } else {
                    g0.at(c)
                } by {
                    if lands_before(m, c, 0, y + 1) != lands_before(m, c, s as int, y as int) {
                        assert(c.0 - m.position.0 >= s);
                    }
                }
            }
            y = y + 1;
        }
        proof {
            assert forall|c: (usize, usize)| #[trigger] self.contains(c) implies self.at(c)
                == replaced_cell(g0, p, m, c) by {
                if !lands_before(m, c, 0, s as int) {
                    let qx = c.0 - m.position.0;
                    let qy = c.1 - m.position.1;
                    assert(!(0 <= qx < s && 0 <= qy < s));
                }
            }
        }
    }
}

/// Every scanned offset fits in an `isize`.
pub open spec fn offsets_fit(g: Grid<Tile>, patch: Patch) -> bool {
    g.dims().0 <= isize::MAX && g.dims().1 <= isize::MAX && patch.dims().0 <= isize::MAX
}

/// `m` is a scanned (rotation, offset) pair at which the turned patch fits.
pub open spec fn is_match(g: Grid<Tile>, patch: Patch, m: PatchOrientation) -> bool {
    &&& m.rotation_times < 4
    &&& first_offset(patch) <= m.position.0 < g.dims().0
    &&& first_offset(patch) <= m.position.1 < g.dims().1
    &&& rotated_fits(g, patch, m.rotation_times as nat, m.position.0 as int, m.position.1 as int)
}

proof fn lemma_row_matches(g: Grid<Tile>, patch: Patch, r: nat, oy: int, nx: nat)
    requires
        offsets_fit(g, patch),
        r < 4,
        first_offset(patch) <= oy < g.dims().1,
        first_offset(patch) + nx <= g.dims().0,
    ensures
        forall|k: int| 0 <= k < row_matches(g, patch, r, oy, nx).len() ==> {
            let m = #[trigger] row_matches(g, patch, r, oy, nx)[k];
            &&& is_match(g, patch, m)
            &&& m.rotation_times == r
            &&& m.position.1 == oy
            &&& m.position.0 < first_offset(patch) + nx
        },
        forall|ox: int|
            first_offset(patch) <= ox < first_offset(patch) + nx && rotated_fits(g, patch, r, ox, oy)
                ==> row_matches(g, patch, r, oy, nx).contains(
                PatchOrientation { rotation_times: r as usize, position: (ox as isize, oy as isize) },
            ),
    decreases nx,
{
    if nx > 0 {
        lemma_row_matches(g, patch, r, oy, (nx - 1) as nat);
        let prev = row_matches(g, patch, r, oy, (nx - 1) as nat);
        let ox = first_offset(patch) + nx - 1;
        let cur = row_matches(g, patch, r, oy, nx);
        assert(cur == prev + match_at(g, patch, r, ox, oy));
        assert forall|k: int| 0 <= k < cur.len() implies {
            let m = #[trigger] cur[k];
            &&& is_match(g, patch, m)
            &&& m.rotation_times == r
            &&& m.position.1 == oy
            &&& m.position.0 < first_offset(patch) + nx
        } by {
            if k < prev.len() {
                assert(cur[k] == prev[k]);
            }
        }
        assert forall|x: int|
            first_offset(patch) <= x < first_offset(patch) + nx && rotated_fits(g, patch, r, x, oy)
                implies cur.contains(
            PatchOrientation { rotation_times: r as usize, position: (x as isize, oy as isize) },
        ) by {
            let m = PatchOrientation { rotation_times: r as usize, position: (x as isize, oy as isize) };
            if x < ox {
                let k = choose|k: int| 0 <= k < prev.len() && prev[k] == m;
                assert(cur[k] == m);
            } else {
                assert(cur[prev.len() as int] == m);
            }
        }
    }
}

proof fn lemma_rotation_matches(g: Grid<Tile>, patch: Patch, r: nat, ny: nat)
    requires
        offsets_fit(g, patch),
        r < 4,
        first_offset(patch) + ny <= g.dims().1,
        first_offset(patch) <= 0,
    ensures
        forall|k: int| 0 <= k < rotation_matches(g, patch, r, ny).len() ==> {
            let m = #[trigger] rotation_matches(g, patch, r, ny)[k];
            &&& is_match(g, patch, m)
            &&& m.rotation_times == r
            &&& m.position.1 < first_offset(patch) + ny
        },
        forall|ox: int, oy: int|
            first_offset(patch) <= ox < g.dims().0 && first_offset(patch) <= oy < first_offset(patch)
                + ny && rotated_fits(g, patch, r, ox, oy) ==> rotation_matches(
                g,
                patch,
                r,
                ny,
            ).contains(
                PatchOrientation { rotation_times: r as usize, position: (ox as isize, oy as isize) },
            ),
    decreases ny,
{
    if ny > 0 {
        lemma_rotation_matches(g, patch, r, (ny - 1) as nat);
        let prev = rotation_matches(g, patch, r, (ny - 1) as nat);
        let oy = first_offset(patch) + ny - 1;
        let row = row_matches(g, patch, r, oy, row_len(g, patch));
        lemma_row_matches(g, patch, r, oy, row_len(g, patch));
        let cur = rotation_matches(g, patch, r, ny);
        assert(cur == prev + row);
        assert forall|k: int| 0 <= k < cur.len() implies {
            let m = #[trigger] cur[k];
            &&& is_match(g, patch, m)
            &&& m.rotation_times == r
            &&& m.position.1 < first_offset(patch) + ny
        } by {
            if k < prev.len() {
                assert(cur[k] == prev[k]);
            } else {
                assert(cur[k] == row[k - prev.len()]);
            }
        }
        assert forall|x: int, y: int|
            first_offset(patch) <= x < g.dims().0 && first_offset(patch) <= y < first_offset(patch)
                + ny && rotated_fits(g, patch, r, x, y) implies cur.contains(
            PatchOrientation { rotation_times: r as usize, position: (x as isize, y as isize) },
        ) by {
            let m = PatchOrientation { rotation_times: r as usize, position: (x as isize, y as isize) };
            if y < oy {
                let k = choose|k: int| 0 <= k < prev.len() && prev[k] == m;
                assert(cur[k] == m);
            } else {
                let k = choose|k: int| 0 <= k < row.len() && row[k] == m;
                assert(cur[prev.len() + k] == m);
            }
        }
    }
}

proof fn lemma_matches_upto(g: Grid<Tile>, patch: Patch, nr: nat)
    requires
        offsets_fit(g, patch),
        nr <= 4,
        first_offset(patch) <= 0,
    ensures
        forall|k: int| 0 <= k < matches_upto(g, patch, nr).len() ==> {
            let m = #[trigger] matches_upto(g, patch, nr)[k];
            &&& is_match(g, patch, m)
            &&& m.rotation_times < nr
        },
        forall|m: PatchOrientation|
            #[trigger] is_match(g, patch, m) && m.rotation_times < nr ==> matches_upto(
                g,
                patch,
                nr,
            ).contains(m),
    decreases nr,
{
    if nr > 0 {
        let r = (nr - 1) as nat;
        lemma_matches_upto(g, patch, r);
        let prev = matches_upto(g, patch, r);
        let rot = rotation_matches(g, patch, r, col_len(g, patch));
        lemma_rotation_matches(g, patch, r, col_len(g, patch));
        let cur = matches_upto(g, patch, nr);
        assert(cur == prev + rot);
        assert forall|k: int| 0 <= k < cur.len() implies {
            let m = #[trigger] cur[k];
            &&& is_match(g, patch, m)
            &&& m.rotation_times < nr
        } by {
            if k < prev.len() {
                assert(cur[k] == prev[k]);
            } else {
                assert(cur[k] == rot[k - prev.len()]);
            }
        }
        assert forall|m: PatchOrientation| #[trigger]
            is_match(g, patch, m) && m.rotation_times < nr implies cur.contains(m) by {
            if m.rotation_times < r {
                let k = choose|k: int| 0 <= k < prev.len() && prev[k] == m;
                assert(cur[k] == m);
            } else {
                let x = m.position.0 as int;
                let y = m.position.1 as int;
                assert(m == PatchOrientation {
                    rotation_times: r as usize,
                    position: (x as isize, y as isize),
                });
                let k = choose|k: int| 0 <= k < rot.len() && rot[k] == m;
                assert(cur[prev.len() + k] == m);
            }
        }
    }
}

/// The matches reported are exactly the scanned (rotation, offset) pairs at which the turned
/// patch fits.
pub proof fn lemma_patch_matches_exact(g: Grid<Tile>, patch: Patch)
    requires
        offsets_fit(g, patch),
        patch.dims().0 >= 1,
    ensures
        forall|k: int| 0 <= k < patch_matches(g, patch).len() ==> is_match(
            g,
            patch,
            #[trigger] patch_matches(g, patch)[k],
        ),
        forall|m: PatchOrientation| #[trigger] is_match(g, patch, m) ==> patch_matches(
            g,
            patch,
        ).contains(m),
{
    lemma_matches_upto(g, patch, 4);
}

/// `after` is `before` with `patch`, turned by `m`'s rotation, written at `m`'s offset.
pub open spec fn is_replacement(after: Grid<Tile>, before: Grid<Tile>, patch: Patch, m: PatchOrientation) -> bool {
    &&& after.wf()
    &&& after.dims() == before.dims()
    &&& forall|c: (usize, usize)| #[trigger] after.contains(c) ==> after.at(c) == replaced_cell(
        before,
        patch,
        m,
        c,
    )
}

/// The match that the number `pick` selects among the matches of `patch` in `g`.
pub open spec fn picked_match(g: Grid<Tile>, patch: Patch, pick: nat) -> PatchOrientation {
    let ms = patch_matches(g, patch);
    ms[(pick % ms.len()) as int]
}

/// The first rule from `i` on whose find patch has a match in `g`, or `rules.len()` if none has.
pub open spec fn first_firing(g: Grid<Tile>, rules: Seq<ReplacementRule>, i: int) -> int
    decreases rules.len() - i,
{
    if i >= rules.len() || i < 0 {
        rules.len() as int
    } else if patch_matches(g, rules[i].find).len() > 0 {
        i
    } else {
        first_firing(g, rules, i + 1)
    }
}

proof fn lemma_first_firing_has_matches(g: Grid<Tile>, rules: Seq<ReplacementRule>, i: int)
    requires
        0 <= i,
    ensures
        first_firing(g, rules, i) <= rules.len(),
        first_firing(g, rules, i) < rules.len() ==> patch_matches(
            g,
            rules[first_firing(g, rules, i)].find,
        ).len() > 0,
    decreases rules.len() - i,
{
    if i < rules.len() && patch_matches(g, rules[i].find).len() == 0 {
        lemma_first_firing_has_matches(g, rules, i + 1);
    }
}

/// Every rule is well formed and can be scanned over `g`.
pub open spec fn rules_fit(g: Grid<Tile>, rules: Seq<ReplacementRule>) -> bool {
    forall|i: int| 0 <= i < rules.len() ==> #[trigger] rules[i].wf() && scannable(g, rules[i].find)
}

/// Relies on `nannou::rand::random` (rand's `random` with the thread-local generator): draws a
/// `usize`. Nothing is known of the value drawn.
#[verifier::external_body]
fn draw_random() -> usize {
    nannou::rand::random::<usize>()
}

impl Grid<Tile> {
    /// If `rule`'s find patch matches the grid, writes its replace patch at the match that
    /// `pick` selects (`pick` modulo the number of matches, in the order of
    /// `get_patch_matches`) and returns `true`; otherwise leaves the grid as it is and returns
    /// `false`.
    pub fn replace_with_pick(&mut self, rule: &ReplacementRule, pick: usize) -> (fired: bool)
        requires
            rule.wf(),
            scannable(*old(self), rule.find),
        ensures
            fired == (patch_matches(*old(self), rule.find).len() > 0),
            !fired ==> *final(self) == *old(self),
            fired ==> is_replacement(
                *final(self),
                *old(self),
                rule.replace,
                picked_match(*old(self), rule.find, pick as nat),
            ),
    {
        let matches = self.get_patch_matches(&rule.find);
        if matches.len() == 0 {
            return false;
        }
        let chosen = matches[pick % matches.len()];
        proof {
            lemma_patch_matches_exact(*self, rule.find);
            assert(is_match(*self, rule.find, chosen));
        }
        self.replace_at(&rule.replace, &chosen);
        true
    }

    /// Applies `rule` once at a match chosen at random, if it has any match.
    pub fn single_random_replace(&mut self, rule: &ReplacementRule) -> (fired: bool)
        requires
            rule.wf(),
            scannable(*old(self), rule.find),
        ensures
            fired == (patch_matches(*old(self), rule.find).len() > 0),
            !fired ==> *final(self) == *old(self),
            fired ==> exists|k: int|
                0 <= k < patch_matches(*old(self), rule.find).len() && is_replacement(
                    *final(self),
                    *old(self),
                    rule.replace,
                    #[trigger] patch_matches(*old(self), rule.find)[k],
                ),
    {
        let pick = draw_random();
        self.replace_with_pick(rule, pick)
    }

    /// One rewrite step: the first rule (in list order) whose find patch has any match fires,
    /// at the match that `pick` selects among that rule's own matches; the rules after it are
    /// not considered. Returns whether a rule fired; if none did, the grid is unchanged.
    pub fn apply_one_step(&mut self, rules: &[ReplacementRule], pick: usize) -> (fired: bool)
        requires
            rules_fit(*old(self), rules@),
        ensures
            fired == (first_firing(*old(self), rules@, 0) < rules@.len()),
            !fired ==> *final(self) == *old(self),
            fired ==> is_replacement(
                *final(self),
                *old(self),
                rules@[first_firing(*old(self), rules@, 0)].replace,
                picked_match(
                    *old(self),
                    rules@[first_firing(*old(self), rules@, 0)].find,
                    pick as nat,
                ),
            ),
    {
        let mut i: usize = 0;
        while i < rules.len()
            invariant
                *self == *old(self),
                rules_fit(*self, rules@),
                i <= rules@.len(),
                first_firing(*self, rules@, 0) == first_firing(*self, rules@, i as int),
            decreases rules.len() - i,
        {
            assert(rules@[i as int].wf() && scannable(*self, rules@[i as int].find));
            if self.replace_with_pick(&rules[i], pick) {
                return true;
            }
            i = i + 1;
        }
        false
    }

    /// One rewrite step with the match picked at random: see `apply_one_step`.
    pub fn priority_random_replace(&mut self, rules: &[ReplacementRule]) -> (fired: bool)
        requires
            rules_fit(*old(self), rules@),
        ensures
            fired == (first_firing(*old(self), rules@, 0) < rules@.len()),
            !fired ==> *final(self) == *old(self),
            fired ==> exists|k: int|
                0 <= k < patch_matches(
                    *old(self),
                    rules@[first_firing(*old(self), rules@, 0)].find,
                ).len() && is_replacement(
                    *final(self),
                    *old(self),
                    rules@[first_firing(*old(self), rules@, 0)].replace,
                    #[trigger] patch_matches(
                        *old(self),
                        rules@[first_firing(*old(self), rules@, 0)].find,
                    )[k],
                ),
    {
        let ghost g = *self;
        let pick = draw_random();
        let fired = self.apply_one_step(rules, pick);
        proof {
            if fired {
                let i = first_firing(g, rules@, 0);
                lemma_first_firing_has_matches(g, rules@, 0);
                let n = patch_matches(g, rules@[i].find).len();
                assert(picked_match(g, rules@[i].find, pick as nat) == patch_matches(
                    g,
                    rules@[i].find,
                )[(pick as nat % n) as int]);
            }
        }
        fired
    }
}

/// Writing a patch into a grid and then scanning for that same patch finds it where it was
/// written: if the turned patch lies wholly inside the grid at offset `m.position` with
/// rotation `m.rotation_times`, the matches of the patch in the new grid include `m`.
pub proof fn lemma_replace_then_match(g: Grid<Tile>, after: Grid<Tile>, patch: Patch, m: PatchOrientation)
    requires
        scannable(g, patch),
        m.rotation_times < 4,
        0 <= m.position.0,
        0 <= m.position.1,
        m.position.0 + patch.dims().0 <= g.dims().0,
        m.position.1 + patch.dims().0 <= g.dims().1,
        is_replacement(after, g, patch, m),
    ensures
        patch_matches(after, patch).contains(m),
{
    let r = m.rotation_times as nat;
    let ox = m.position.0 as int;
    let oy = m.position.1 as int;
    assert forall|q: (usize, usize)|
        patch.contains(q) && (#[trigger] rotated_cell(patch, r, q)) is Some implies in_bounds(
        after,
        q.0 + ox,
        q.1 + oy,
    ) && after.at(((q.0 + ox) as usize, (q.1 + oy) as usize)) == rotated_cell(patch, r, q)->Some_0 by {
        let c = ((q.0 + ox) as usize, (q.1 + oy) as usize);
        assert(after.contains(c));
        assert(((c.0 - m.position.0) as usize, (c.1 - m.position.1) as usize) == q);
    }
    assert(is_match(after, patch, m));
    lemma_patch_matches_exact(after, patch);
}

} // verus!
