//! A 2D grid of cells held in a flat buffer, addressed through the 2D
//! coordinate's flat index, with rotated views and rotated copies.
use vstd::prelude::*;
use vstd::arithmetic::div_mod::lemma_fundamental_div_mod;
use crate::coord::{lemma_rotation_2d_group_action, Coord, CoordIter};

verus! {

/// A grid of `size.0` by `size.1` cells; the cell at `(x, y)` sits at flat index
/// `size.1 * x + y`.
pub struct Grid<T> {
    items: Vec<T>,
    size: (usize, usize),
}

/// The quarter turns that undo `times` quarter turns.
pub open spec fn inverse_rotation(times: nat) -> nat {
    ((4 - times % 4) % 4) as nat
}

/// Distinct cells of a grid have distinct flat indices.
pub proof fn lemma_to_flat_injective(a: (usize, usize), b: (usize, usize), size: (usize, usize))
    requires
        a.spec_in_grid(size),
        b.spec_in_grid(size),
        a.spec_to_flat(size) == b.spec_to_flat(size),
    ensures
        a == b,
{
    let s = size.1 as int;
    assert(a.0 == b.0) by (nonlinear_arith)
        requires
            s * a.0 + a.1 == s * b.0 + b.1,
            0 <= a.1 < s,
            0 <= b.1 < s,
    ;
}

impl<T> Grid<T> {
    /// The cells in flat order.
    pub closed spec fn cells(&self) -> Seq<T> {
        self.items@
    }

    /// The extent of the grid.
    pub closed spec fn dims(&self) -> (usize, usize) {
        self.size
    }

    /// The grid holds one cell for each coordinate of its extent.
    pub open spec fn wf(&self) -> bool {
        self.cells().len() == self.dims().0 * self.dims().1
    }

    /// `c` lies inside the grid.
    pub open spec fn contains(&self, c: (usize, usize)) -> bool {
        c.spec_in_grid(self.dims())
    }

    /// The cell at `c`.
    pub open spec fn at(&self, c: (usize, usize)) -> T {
        self.cells()[c.spec_to_flat(self.dims())]
    }

    /// The grid of extent `size` holding `items` in flat order.
    pub fn new(items: Vec<T>, size: (usize, usize)) -> (r: Self)
        requires
            items@.len() == size.0 * size.1,
        ensures
            r.wf(),
            r.cells() == items@,
            r.dims() == size,
    {
        Self { items, size }
    }

    pub fn size(&self) -> (r: (usize, usize))
        ensures
            r == self.dims(),
    {
        self.size
    }

    /// The cell at `c`.
    pub fn cell_at(&self, c: (usize, usize)) -> (r: &T)
        requires
            self.wf(),
            self.contains(c),
        ensures
            *r == self.at(c),
    {
        // the buffer's length bounds the extent's volume
        let _len = self.items.len();
        let i = c.to_flat(&self.size);
        &self.items[i]
    }

    /// Overwrites the cell at `c` with `value`.
    pub fn set(&mut self, c: (usize, usize), value: T)
        requires
            old(self).wf(),
            old(self).contains(c),
        ensures
            final(self).wf(),
            final(self).dims() == old(self).dims(),
            forall|d: (usize, usize)|
                #[trigger] final(self).contains(d) ==> final(self).at(d) == if d == c {
                    value
                } else {
                    old(self).at(d)
                },
    {
        // the buffer's length bounds the extent's volume
        let _len = self.items.len();
        let i = c.to_flat(&self.size);
        self.items.set(i, value);
        proof {
            assert forall|d: (usize, usize)| #[trigger] self.contains(d) implies self.at(d) == if d
                == c {
                value
            } else {
                old(self).at(d)
            } by {
                assert(d.spec_to_flat(self.size) < self.size.0 * self.size.1) by (nonlinear_arith)
                    requires
                        d.0 < self.size.0,
                        d.1 < self.size.1,
                        d.spec_to_flat(self.size) == self.size.1 * d.0 + d.1,
                ;
                if d != c {
                    if d.spec_to_flat(self.size) == c.spec_to_flat(self.size) {
                        lemma_to_flat_injective(d, c, self.size);
                    }
                }
            }
        }
    }

    /// The coordinates of the grid in scan order, first axis fastest.
    pub fn cartesian_iter(&self) -> (r: CoordIter<(usize, usize)>)
        ensures
            r.wf(),
            r.index == (0usize, 0usize),
            r.target == self.dims(),
    {
        self.size.cartesian_iter()
    }

    /// A view of the grid that reads every coordinate rotated `times` quarter turns.
    pub fn with_rotation(&self, times: usize) -> (r: RotatedGridView<'_, T>)
        ensures
            r.grid() == self,
            r.times() == times,
    {
        RotatedGridView { grid_view: self, rotation_times: times }
    }
}

/// Has a reference to a grid, and a rotation amount: reads the grid in a rotated fashion.
pub struct RotatedGridView<'grid, T> {
    grid_view: &'grid Grid<T>,
    rotation_times: usize,
}

impl<'grid, T> RotatedGridView<'grid, T> {
    pub closed spec fn grid(&self) -> &'grid Grid<T> {
        self.grid_view
    }

    pub closed spec fn times(&self) -> usize {
        self.rotation_times
    }

    /// The cell of the underlying grid at `c` rotated.
    pub fn cell_at(&self, c: (usize, usize)) -> (r: &'grid T)
        requires
            self.grid().wf(),
            self.grid().contains(c),
            <(usize, usize)>::spec_rotatable(self.times() as nat, self.grid().dims()),
        ensures
            *r == self.grid().at(c.spec_rotated(self.times() as nat, self.grid().dims())),
    {
        let size = self.grid_view.size();
        let p = c.rotated(self.rotation_times, &size);
        self.grid_view.cell_at(p)
    }
}

impl<T: Copy> Grid<T> {
    /// The grid of extent `size` with `value` in every cell.
    pub fn filled(size: (usize, usize), value: T) -> (r: Self)
        requires
            size.0 * size.1 <= usize::MAX,
        ensures
            r.wf(),
            r.dims() == size,
            forall|c: (usize, usize)| #[trigger] r.contains(c) ==> r.at(c) == value,
    {
        let n = size.0 * size.1;
        let mut items: Vec<T> = Vec::new();
        let mut i: usize = 0;
        while i < n
            invariant
                i <= n,
                items@.len() == i,
                forall|j: int| 0 <= j < i ==> items@[j] == value,
            decreases n - i,
        {
            items.push(value);
            i = i + 1;
        }
        let r = Self { items, size };
        assert forall|c: (usize, usize)| #[trigger] r.contains(c) implies r.at(c) == value by {
            assert(c.spec_to_flat(size) < size.0 * size.1) by (nonlinear_arith)
                requires
                    c.0 < size.0,
                    c.1 < size.1,
                    c.spec_to_flat(size) == size.1 * c.0 + c.1,
            ;
        }
        r
    }

    /// A copy of this square grid turned `times` quarter turns: the cell at `p` moves to
    /// `p` rotated.
    pub fn rotate(&self, times: usize) -> (r: Self)
        requires
            self.wf(),
            self.dims().0 == self.dims().1,
        ensures
            r.wf(),
            r.dims() == self.dims(),
            forall|q: (usize, usize)| #[trigger] r.contains(q) ==> r.at(q) == self.at(
                q.spec_rotated(inverse_rotation(times as nat), self.dims()),
            ),
            forall|p: (usize, usize)| #[trigger] self.contains(p) ==> r.at(
                p.spec_rotated(times as nat, self.dims()),
            ) == self.at(p),
    {
        let size = self.size;
        let n = self.items.len();
        let back = (4 - times % 4) % 4;
        let mut items: Vec<T> = Vec::new();
        let mut f: usize = 0;
        while f < n
            invariant
                self.wf(),
                size == self.dims(),
                size.0 == size.1,
                n == size.0 * size.1,
                back == inverse_rotation(times as nat),
                f <= n,
                items@.len() == f,
                forall|j: int|
                    0 <= j < f ==> items@[j] == self.at(
                        ((j / size.1 as int) as usize, (j % size.1 as int) as usize).spec_rotated(
                            back as nat,
                            size,
                        ),
                    ),
            decreases n - f,
        {
            let q = (f / size.1, f % size.1);
            proof {
                lemma_fundamental_div_mod(f as int, size.1 as int);
                assert(f / size.1 < size.0) by (nonlinear_arith)
                    requires
                        f < size.0 * size.1,
                        f == size.1 * (f / size.1) + f % size.1,
                        f % size.1 >= 0,
                        size.1 > 0,
                ;
            }
            let p = q.rotated(back, &size);
            items.push(*self.cell_at(p));
            f = f + 1;
        }
        let r = Self { items, size };
        proof {
            assert forall|q: (usize, usize)| #[trigger] r.contains(q) implies r.at(q) == self.at(
                q.spec_rotated(back as nat, size),
            ) by {
                let j = q.spec_to_flat(size);
                assert(0 <= j < n) by (nonlinear_arith)
                    requires
                        q.0 < size.0,
                        q.1 < size.1,
                        j == size.1 * q.0 + q.1,
                        n == size.0 * size.1,
                ;
                vstd::arithmetic::div_mod::lemma_fundamental_div_mod_converse(
                    j,
                    size.1 as int,
                    q.0 as int,
                    q.1 as int,
                );
            }
            assert forall|p: (usize, usize)| #[trigger] self.contains(p) implies r.at(
                p.spec_rotated(times as nat, size),
            ) == self.at(p) by {
                lemma_rotation_2d_group_action(p, times as nat, back as nat, size);
                lemma_rotation_2d_group_action(p, 0, 0, size);
                assert((times as nat + back as nat) % 4 == 0);
                assert(p.spec_rotated(times as nat + back as nat, size) == p.spec_rotated(0, size));
                assert(r.contains(p.spec_rotated(times as nat, size)));
            }
        }
        r
    }
}

} // verus!
