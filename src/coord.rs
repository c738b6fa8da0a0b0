//! Coordinates of fixed small dimension (1D: `usize`, 2D: `(usize, usize)`) inside
//! a grid: flat indexing, rotation about the grid's centre, and scan order.
use vstd::prelude::*;
use vstd::arithmetic::div_mod::{lemma_fundamental_div_mod, lemma_fundamental_div_mod_converse};
use crate::rotation::{apply_configuration, lemma_rotations_2d, rotations};

verus! {

/// A coordinate inside a grid, or the extent of a grid. Methods take owned self: the
/// implementations are plain integers and tuples of them.
pub trait Coord: Sized {
    /// The origin.
    spec fn spec_zero() -> Self;

    /// The size of the rotation group of this dimension.
    spec fn spec_num_rotations() -> nat;

    /// The number of cells of a grid of this extent.
    spec fn spec_volume(self) -> int;

    /// The coordinate lies inside a grid of extent `size`.
    spec fn spec_in_grid(self, size: Self) -> bool;

    /// The flat array index of the coordinate in a grid of extent `size`.
    spec fn spec_to_flat(self, size: Self) -> int;

    /// Rotation `times` is defined on a grid of extent `size`.
    spec fn spec_rotatable(times: nat, size: Self) -> bool;

    /// The coordinate rotated `times` times about the centre of a grid of extent `size`.
    spec fn spec_rotated(self, times: nat, size: Self) -> Self;

    fn zero() -> (r: Self)
        ensures
            r == Self::spec_zero(),
    ;

    fn num_rotations() -> (r: usize)
        ensures
            r == Self::spec_num_rotations(),
            r > 0,
    ;

    /// If coord is N-dim width, height, depth, calculate volume
    fn extent(self) -> (r: usize)
        requires
            self.spec_volume() <= usize::MAX,
        ensures
            r == self.spec_volume(),
    ;

    /// Convert N-dim coord to flat array index
    fn to_flat(self, size: &Self) -> (r: usize)
        requires
            self.spec_in_grid(*size),
            size.spec_volume() <= usize::MAX,
        ensures
            r == self.spec_to_flat(*size),
            r < size.spec_volume(),
    ;

    /// the coords rotated n times
    fn rotated(self, times: usize, grid_size: &Self) -> (r: Self)
        requires
            self.spec_in_grid(*grid_size),
            Self::spec_rotatable(times as nat, *grid_size),
        ensures
            r == self.spec_rotated(times as nat, *grid_size),
            r.spec_in_grid(*grid_size),
    ;

    fn canonical_rotation_times(times: usize) -> (r: usize)
        ensures
            r == times as nat % Self::spec_num_rotations(),
    {
        times % Self::num_rotations()
    }

    fn cartesian_iter(self) -> (r: CoordIter<Self>)
        ensures
            r.index == Self::spec_zero(),
            r.target == self,
    {
        CoordIter { index: Self::zero(), target: self }
    }
}

/// Iterates the coordinates of a grid of extent `target` in scan order.
pub struct CoordIter<C: Coord> {
    pub index: C,
    pub target: C,
}

/// 1D: the rotation group is the identity and the reflection through the centre.
impl Coord for usize {
    open spec fn spec_zero() -> Self {
        0
    }

    open spec fn spec_num_rotations() -> nat {
        2
    }

    open spec fn spec_volume(self) -> int {
        self as int
    }

    open spec fn spec_in_grid(self, size: Self) -> bool {
        self < size
    }

    open spec fn spec_to_flat(self, size: Self) -> int {
        self as int
    }

    open spec fn spec_rotatable(times: nat, size: Self) -> bool {
        true
    }

    open spec fn spec_rotated(self, times: nat, size: Self) -> Self {
        if times % 2 == 0 {
            self
        } else {
            (size - 1 - self) as usize
        }
    }

    fn zero() -> (r: Self) {
        0
    }

    fn num_rotations() -> (r: usize) {
        2
    }

    fn extent(self) -> (r: usize) {
        self
    }

    fn to_flat(self, size: &Self) -> (r: usize) {
        self
    }

    fn rotated(self, times: usize, grid_size: &Self) -> (r: Self) {
        let times = Self::canonical_rotation_times(times);
        if times == 0 {
            self
        } else {
            *grid_size - 1 - self
        }
    }
}

/// 2D: (x, y), rotated a quarter turn at a time.
impl Coord for (usize, usize) {
    open spec fn spec_zero() -> Self {
        (0, 0)
    }

    open spec fn spec_num_rotations() -> nat {
        4
    }

    open spec fn spec_volume(self) -> int {
        self.0 * self.1
    }

    open spec fn spec_in_grid(self, size: Self) -> bool {
        self.0 < size.0 && self.1 < size.1
    }

    open spec fn spec_to_flat(self, size: Self) -> int {
        size.1 * self.0 + self.1
    }

    /// A quarter turn swaps the axes, so it needs a square grid.
    open spec fn spec_rotatable(times: nat, size: Self) -> bool {
        times % 2 == 0 || size.0 == size.1
    }

    open spec fn spec_rotated(self, times: nat, size: Self) -> Self {
        let t = times % 4;
        if t == 0 {
            self
        } else if t == 1 {
            ((size.1 - 1 - self.1) as usize, self.0)
        } else if t == 2 {
            ((size.0 - 1 - self.0) as usize, (size.1 - 1 - self.1) as usize)
        } else {
            (self.1, (size.0 - 1 - self.0) as usize)
        }
    }

    fn zero() -> (r: Self) {
        (0, 0)
    }

    fn num_rotations() -> (r: usize) {
        4
    }

    fn extent(self) -> (r: usize) {
        self.0 * self.1
    }

    fn to_flat(self, size: &Self) -> (r: usize) {
        proof {
            assert(size.1 * self.0 + self.1 < size.0 * size.1) by (nonlinear_arith)
                requires
                    self.0 < size.0,
                    self.1 < size.1,
            ;
        }
        size.1 * self.0 + self.1
    }

    fn rotated(self, times: usize, grid_size: &Self) -> (r: Self) {
        let times = Self::canonical_rotation_times(times);
        if times == 0 {
            self
        } else if times == 1 {
            (grid_size.1 - 1 - self.1, self.0)
        } else if times == 2 {
            (grid_size.0 - 1 - self.0, grid_size.1 - 1 - self.1)
        } else {
            (self.1, grid_size.0 - 1 - self.0)
        }
    }
}

impl CoordIter<usize> {
    /// The next coordinate in scan order, or `None` once the grid is exhausted.
    pub fn next(&mut self) -> (r: Option<usize>)
        ensures
            final(self).target == old(self).target,
            old(self).index < old(self).target ==> r == Some(old(self).index) && final(self).index
                == old(self).index + 1,
            old(self).index >= old(self).target ==> r is None && final(self).index == old(self).index,
    {
        let cur = self.index;
        if cur < self.target {
            self.index = cur + 1;
            Some(cur)
        } else {
            None
        }
    }
}

/// The `k`-th coordinate of scan order in a grid of width `w`: first axis fastest.
pub open spec fn scan_2d(w: int, k: int) -> (usize, usize) {
    ((k % w) as usize, (k / w) as usize)
}

impl CoordIter<(usize, usize)> {
    /// How many coordinates scan order has passed.
    pub open spec fn position(&self) -> int {
        self.index.1 * self.target.0 + self.index.0
    }

    pub open spec fn wf(&self) -> bool {
        &&& self.index.0 < self.target.0 || self.index.0 == 0
        &&& self.index.1 <= self.target.1
        &&& self.index.1 == self.target.1 ==> self.index.0 == 0
    }

    /// The next coordinate in scan order, or `None` once the grid is exhausted.
    pub fn next(&mut self) -> (r: Option<(usize, usize)>)
        requires
            old(self).wf(),
        ensures
            final(self).wf(),
            final(self).target == old(self).target,
            old(self).position() < old(self).target.0 * old(self).target.1 ==> r == Some(
                scan_2d(old(self).target.0 as int, old(self).position()),
            ) && final(self).position() == old(self).position() + 1,
            old(self).position() >= old(self).target.0 * old(self).target.1 ==> r is None
                && final(self).index == old(self).index,
    {
        let cur = self.index;
        let ghost w = self.target.0 as int;
        let ghost h = self.target.1 as int;
        let ghost k = self.position();
        proof {
            assert(k < w * h <==> (cur.0 < w && cur.1 < h)) by (nonlinear_arith)
                requires
                    k == cur.1 * w + cur.0,
                    cur.0 < w || cur.0 == 0,
                    cur.1 <= h,
                    cur.1 == h ==> cur.0 == 0,
                    w >= 0,
            ;
        }
        if cur.0 < self.target.0 && cur.1 < self.target.1 {
            proof {
                lemma_fundamental_div_mod_converse(k, w, cur.1 as int, cur.0 as int);
            }
            // next col
            if cur.0 + 1 < self.target.0 {
                self.index = (cur.0 + 1, cur.1);
            } else {
                // next row
                self.index = (0, cur.1 + 1);
                assert((cur.1 + 1) * w + 0 == cur.1 * w + cur.0 + 1) by (nonlinear_arith)
                    requires
                        cur.0 + 1 == w,
                ;
            }
            Some(cur)
        } else {
            None
        }
    }
}

/// Scan order of a `w` by `h` grid meets every cell once: its first `w * h` coordinates lie
/// in the grid, and no two of them are equal.
pub proof fn lemma_scan_2d_covers_grid(w: int, h: int, k1: int, k2: int)
    requires
        0 <= w <= usize::MAX,
        0 <= h <= usize::MAX,
        0 <= k1 < w * h,
        0 <= k2 < w * h,
    ensures
        scan_2d(w, k1).0 < w && scan_2d(w, k1).1 < h,
        scan_2d(w, k1) == scan_2d(w, k2) ==> k1 == k2,
{
    assert(w > 0) by (nonlinear_arith)
        requires
            0 <= k1 < w * h,
            w >= 0,
            h >= 0,
    ;
    lemma_fundamental_div_mod(k1, w);
    lemma_fundamental_div_mod(k2, w);
    assert(0 <= k1 % w < w && k1 / w < h) by (nonlinear_arith)
        requires
            w > 0,
            0 <= k1 < w * h,
            k1 == w * (k1 / w) + k1 % w,
    ;
    assert(0 <= k2 % w < w && 0 <= k2 / w < h) by (nonlinear_arith)
        requires
            w > 0,
            0 <= k2 < w * h,
            k2 == w * (k2 / w) + k2 % w,
    ;
    assert(0 <= k1 / w);
    if scan_2d(w, k1) == scan_2d(w, k2) {
        assert(k1 % w == k2 % w && k1 / w == k2 / w);
    }
}

/// Rotation is an action of the two-element group on a 1D grid: rotating zero times or
/// twice leaves a coordinate in place, and rotating `a` times then `b` times is rotating
/// `a + b` times.
pub proof fn lemma_rotation_1d_group_action(c: usize, a: nat, b: nat, size: usize)
    requires
        c.spec_in_grid(size),
    ensures
        c.spec_rotated(0, size) == c,
        c.spec_rotated(usize::spec_num_rotations(), size) == c,
        c.spec_rotated(a, size).spec_rotated(b, size) == c.spec_rotated(a + b, size),
{
}

/// Rotation is an action of the four-element group on a square 2D grid: rotating zero or
/// four times leaves a coordinate in place, four quarter turns in a row come back to it, and
/// rotating `a` times then `b` times is rotating `a + b` times.
pub proof fn lemma_rotation_2d_group_action(c: (usize, usize), a: nat, b: nat, size: (usize, usize))
    requires
        c.spec_in_grid(size),
        size.0 == size.1,
    ensures
        c.spec_rotated(0, size) == c,
        c.spec_rotated(<(usize, usize)>::spec_num_rotations(), size) == c,
        c.spec_rotated(1, size).spec_rotated(1, size).spec_rotated(1, size).spec_rotated(1, size)
            == c,
        c.spec_rotated(a, size).spec_rotated(b, size) == c.spec_rotated(a + b, size),
{
    assert((a + b) % 4 == (a % 4 + b % 4) % 4);
}

/// The member of the plane's rotation group, in the order of `rotations(2)`, that `t` quarter
/// turns are.
pub open spec fn rotation_index_2d(t: nat) -> int {
    let r = t % 4;
    if r == 0 {
        2
    } else if r == 1 {
        1
    } else if r == 2 {
        3
    } else {
        0
    }
}

/// The 2D rotation table is the general rotation group of the plane: `t` quarter turns move a
/// coordinate as the configuration `rotations(2)[rotation_index_2d(t)]` does.
pub proof fn lemma_rotation_2d_is_group_member(c: (usize, usize), t: nat, size: (usize, usize))
    requires
        c.spec_in_grid(size),
        <(usize, usize)>::spec_rotatable(t, size),
    ensures
        0 <= rotation_index_2d(t) < rotations(2).len(),
        ({
            let r = c.spec_rotated(t, size);
            seq![r.0 as int, r.1 as int] == apply_configuration(
                rotations(2)[rotation_index_2d(t)],
                seq![c.0 as int, c.1 as int],
                seq![size.0 as int, size.1 as int],
            )
        }),
{
    lemma_rotations_2d();
    let r = c.spec_rotated(t, size);
    assert(seq![r.0 as int, r.1 as int] =~= apply_configuration(
        rotations(2)[rotation_index_2d(t)],
        seq![c.0 as int, c.1 as int],
        seq![size.0 as int, size.1 as int],
    ));
}

} // verus!
