//! Points and extents in D-dimensional integer space, and the iteration over
//! every point of a box, first axis fastest.
use vstd::prelude::*;
use vstd::arithmetic::div_mod::{lemma_fundamental_div_mod, lemma_fundamental_div_mod_converse};

verus! {

/// A point (or an extent) of D-dimensional integer space.
#[derive(Debug, Clone, Copy)]
pub struct Coord<const D: usize> {
    pub axes: [isize; D],
}

impl<const D: usize> View for Coord<D> {
    type V = Seq<int>;

    open spec fn view(&self) -> Seq<int> {
        Seq::new(D as nat, |j: int| self.axes@[j] as int)
    }
}

/// The product of the axes of `e`: the number of points of a box of extent `e`.
pub open spec fn volume_of(e: Seq<int>) -> int
    decreases e.len(),
{
    if e.len() == 0 {
        1
    } else {
        e[0] * volume_of(e.drop_first())
    }
}

/// Every axis of `e` is non-negative.
pub open spec fn is_extent(e: Seq<int>) -> bool {
    forall|j: int| 0 <= j < e.len() ==> e[j] >= 0
}

/// The offset from the box's corner of the `k`-th point of a box of extent `e` in scan order:
/// the digits of `k` in the mixed radix `e`, the first axis least significant.
pub open spec fn nth_offset(e: Seq<int>, k: int) -> Seq<int>
    decreases e.len(),
{
    if e.len() == 0 {
        Seq::empty()
    } else {
        seq![k % e[0]] + nth_offset(e.drop_first(), k / e[0])
    }
}

/// `c` lies in the box of extent `e` at the origin: `0 <= c[j] < e[j]` on every axis.
pub open spec fn in_box(c: Seq<int>, e: Seq<int>) -> bool {
    &&& c.len() == e.len()
    &&& forall|j: int| 0 <= j < c.len() ==> 0 <= #[trigger] c[j] < e[j]
}

/// The componentwise sum of two points.
pub open spec fn add_axes(a: Seq<int>, b: Seq<int>) -> Seq<int> {
    Seq::new(a.len(), |j: int| a[j] + b[j])
}

/// The next offset after `c` in scan order within extent `e`: the first axis that is not at
/// its last value advances, and the axes before it return to zero.
pub open spec fn next_offset(c: Seq<int>, e: Seq<int>) -> Seq<int>
    decreases c.len(),
{
    if c.len() == 0 {
        c
    } else if c[0] < e[0] - 1 {
        c.update(0, c[0] + 1)
    } else {
        seq![0int] + next_offset(c.drop_first(), e.drop_first())
    }
}

/// Scan order meets every point of a box once: the offsets `0 .. volume_of(e)` all lie in
/// the box, and no two of them are equal.
pub proof fn lemma_scan_order_covers_box(e: Seq<int>, k1: int, k2: int)
    requires
        is_extent(e),
        0 <= k1 < volume_of(e),
        0 <= k2 < volume_of(e),
    ensures
        in_box(nth_offset(e, k1), e),
        nth_offset(e, k1) == nth_offset(e, k2) ==> k1 == k2,
    decreases e.len(),
{
    if e.len() > 0 {
        let rest = e.drop_first();
        let v = volume_of(rest);
        lemma_volume_nonneg(rest);
        assert(e[0] > 0 && v > 0) by (nonlinear_arith)
            requires
                0 <= k1 < e[0] * v,
                e[0] >= 0,
                v >= 0,
        ;
        assert(k1 / e[0] < v && k2 / e[0] < v) by (nonlinear_arith)
            requires
                0 <= k1 < e[0] * v,
                0 <= k2 < e[0] * v,
                e[0] > 0,
        ;
        lemma_scan_order_covers_box(rest, k1 / e[0], k2 / e[0]);
        let c1 = nth_offset(e, k1);
        assert(c1.drop_first() == nth_offset(rest, k1 / e[0]));
        assert forall|j: int| 0 <= j < c1.len() implies 0 <= #[trigger] c1[j] < e[j] by {
            if j > 0 {
                assert(c1[j] == c1.drop_first()[j - 1]);
            }
        }
        if nth_offset(e, k1) == nth_offset(e, k2) {
            let c2 = nth_offset(e, k2);
            assert(c1[0] == c2[0]);
            assert(c1.drop_first() == c2.drop_first());
            assert(c2.drop_first() == nth_offset(rest, k2 / e[0]));
            assert(k1 == k2) by (nonlinear_arith)
                requires
                    e[0] > 0,
                    k1 % e[0] == k2 % e[0],
                    k1 / e[0] == k2 / e[0],
            ;
        }
    }
}

pub proof fn lemma_volume_nonneg(e: Seq<int>)
    requires
        is_extent(e),
    ensures
        volume_of(e) >= 0,
    decreases e.len(),
{
    if e.len() > 0 {
        lemma_volume_nonneg(e.drop_first());
        assert(e[0] * volume_of(e.drop_first()) >= 0) by (nonlinear_arith)
            requires
                e[0] >= 0,
                volume_of(e.drop_first()) >= 0,
        ;
    }
}

/// Advancing by one in scan order moves from the `k`-th offset to the `k + 1`-th.
proof fn lemma_next_offset(e: Seq<int>, k: int)
    requires
        is_extent(e),
        0 <= k,
        k + 1 < volume_of(e),
    ensures
        next_offset(nth_offset(e, k), e) == nth_offset(e, k + 1),
    decreases e.len(),
{
    let rest = e.drop_first();
    let v = volume_of(rest);
    lemma_volume_nonneg(rest);
    assert(e[0] > 0) by (nonlinear_arith)
        requires
            0 <= k + 1 < e[0] * v,
            e[0] >= 0,
            v >= 0,
    ;
    let c = nth_offset(e, k);
    assert(c[0] == k % e[0]);
    assert(c.drop_first() =~= nth_offset(rest, k / e[0]));
    if k % e[0] < e[0] - 1 {
        lemma_fundamental_div_mod(k, e[0]);
        lemma_fundamental_div_mod_converse(k + 1, e[0], k / e[0], k % e[0] + 1);
        assert(next_offset(c, e) =~= nth_offset(e, k + 1));
    } else {
        lemma_fundamental_div_mod(k, e[0]);
        assert(k + 1 == (k / e[0] + 1) * e[0] + 0) by (nonlinear_arith)
            requires
                k == e[0] * (k / e[0]) + k % e[0],
                k % e[0] == e[0] - 1,
        ;
        lemma_fundamental_div_mod_converse(k + 1, e[0], k / e[0] + 1, 0);
        assert((k + 1) / e[0] < v) by (nonlinear_arith)
            requires
                e[0] > 0,
                0 <= k + 1 < e[0] * v,
                (k + 1) % e[0] == 0,
        ;
        lemma_next_offset(rest, k / e[0]);
        assert(next_offset(c, e) =~= nth_offset(e, k + 1));
    }
}

/// `k` is below the volume of `e` exactly when `e` has no zero axis.
proof fn lemma_volume_zero(e: Seq<int>)
    requires
        is_extent(e),
    ensures
        (volume_of(e) == 0) <==> (exists|j: int| 0 <= j < e.len() && e[j] == 0),
        volume_of(e) != 0 ==> forall|j: int| 0 <= j < e.len() ==> e[j] > 0,
    decreases e.len(),
{
    if e.len() > 0 {
        let rest = e.drop_first();
        lemma_volume_zero(rest);
        lemma_volume_nonneg(rest);
        assert((e[0] * volume_of(rest) == 0) <==> (e[0] == 0 || volume_of(rest) == 0))
            by (nonlinear_arith);
        if exists|j: int| 0 <= j < rest.len() && rest[j] == 0 {
            let j = choose|j: int| 0 <= j < rest.len() && rest[j] == 0;
            assert(e[j + 1] == 0);
        }
        if exists|j: int| 0 <= j < e.len() && e[j] == 0 {
            let j = choose|j: int| 0 <= j < e.len() && e[j] == 0;
            if j > 0 {
                assert(rest[j - 1] == 0);
            }
        }
        assert forall|j: int| 0 <= j < e.len() && volume_of(e) != 0 implies e[j] > 0 by {
            if j > 0 {
                assert(rest[j - 1] == e[j]);
            }
        }
    }
}

/// The first offset of scan order is the box's corner.
proof fn lemma_first_offset(e: Seq<int>)
    requires
        forall|j: int| 0 <= j < e.len() ==> e[j] > 0,
    ensures
        nth_offset(e, 0) =~= Seq::new(e.len(), |j: int| 0int),
    decreases e.len(),
{
    if e.len() > 0 {
        lemma_first_offset(e.drop_first());
        assert(0int / e[0] == 0 && 0int % e[0] == 0);
    }
}

/// The last offset of scan order is the far corner of the box.
proof fn lemma_last_offset(e: Seq<int>)
    requires
        is_extent(e),
        volume_of(e) > 0,
    ensures
        nth_offset(e, volume_of(e) - 1) =~= Seq::new(e.len(), |j: int| e[j] - 1),
    decreases e.len(),
{
    if e.len() > 0 {
        let rest = e.drop_first();
        let v = volume_of(rest);
        lemma_volume_nonneg(rest);
        assert(e[0] > 0 && v > 0) by (nonlinear_arith)
            requires
                e[0] * v > 0,
                e[0] >= 0,
                v >= 0,
        ;
        assert((e[0] * v - 1) % e[0] == e[0] - 1 && (e[0] * v - 1) / e[0] == v - 1)
            by (nonlinear_arith)
            requires
                e[0] > 0,
                v > 0,
        ;
        lemma_last_offset(rest);
    }
}

/// Scan order advances the first axis that is not at its last value and returns the axes
/// before it to zero.
proof fn lemma_next_offset_at(c: Seq<int>, e: Seq<int>, d: int)
    requires
        c.len() == e.len(),
        0 <= d < c.len(),
        forall|j: int| 0 <= j < d ==> c[j] == e[j] - 1,
        c[d] < e[d] - 1,
    ensures
        next_offset(c, e) =~= Seq::new(
            c.len(),
            |j: int|
                if j < d {
                    0
                } else if j == d {
                    c[d] + 1
                } else {
                    c[j]
                },
        ),
    decreases d,
{
    if d > 0 {
        assert(c[0] == e[0] - 1);
        lemma_next_offset_at(c.drop_first(), e.drop_first(), d - 1);
    }
}

impl<const D: usize> Coord<D> {
    pub fn new(axes: [isize; D]) -> (r: Self)
        ensures
            r.axes == axes,
    {
        Self { axes }
    }

    /// The number of points of a box of this extent: the product of the axes.
    pub fn volume(&self) -> (r: usize)
        requires
            is_extent(self@),
            volume_of(self@) <= usize::MAX,
        ensures
            r == volume_of(self@),
    {
        // a zero axis makes the product zero, whatever the other axes hold
        let mut z: usize = 0;
        while z < D
            invariant
                z <= D,
                is_extent(self@),
                forall|i: int| 0 <= i < z ==> self@[i] >= 1,
            decreases D - z,
        {
            if self.axes[z] == 0 {
                proof {
                    assert(self@[z as int] == 0);
                    lemma_volume_zero(self@);
                }
                return 0;
            }
            z = z + 1;
        }
        // every axis is positive, so every partial product is at most the whole
        let mut acc: usize = 1;
        let mut j: usize = D;
        proof {
            assert(self@.skip(D as int) =~= Seq::<int>::empty());
        }
        while j > 0
            invariant
                j <= D,
                forall|i: int| 0 <= i < D ==> self@[i] >= 1,
                volume_of(self@) <= usize::MAX,
                acc == volume_of(self@.skip(j as int)),
            decreases j,
        {
            let ghost tail = self@.skip(j as int);
            let ghost next = self@.skip(j - 1);
            proof {
                assert(next.drop_first() =~= tail);
                lemma_volume_suffix_bound(self@, (j - 1) as nat);
            }
            acc = (self.axes[j - 1] as usize) * acc;
            j = j - 1;
        }
        proof {
            assert(self@.skip(0) =~= self@);
        }
        acc
    }

    /// Iterates the box of extent `size` whose first corner is this point.
    pub fn iter_volume(&self, size: &Self) -> (r: CartesianIter<D>)
        requires
            is_extent(size@),
            forall|j: int| 0 <= j < D ==> isize::MIN + 1 <= #[trigger] self@[j] + size@[j] <= isize::MAX + 1,
        ensures
            r.wf(),
            r.start() == self@,
            r.extent() == size@,
            r.position() == 0,
    {
        // CartesianIter expects an inclusive end, so subtract one
        let mut end = self.axes;
        let mut j: usize = 0;
        while j < D
            invariant
                j <= D,
                is_extent(size@),
                forall|i: int| 0 <= i < D ==> isize::MIN + 1 <= #[trigger] self@[i] + size@[i] <= isize::MAX + 1,
                forall|i: int| 0 <= i < j ==> end@[i] == self@[i] + size@[i] - 1,
                forall|i: int| j <= i < D ==> end@[i] == self@[i],
            decreases D - j,
        {
            assert(self@[j as int] == self.axes@[j as int]);
            assert(size@[j as int] == size.axes@[j as int] && size@[j as int] >= 0);
            end[j] = self.axes[j] + (size.axes[j] - 1);
            j = j + 1;
        }
        let end_inclusive = Coord { axes: end };
        let r = CartesianIter::new(self, &end_inclusive);
        assert(r.extent() =~= size@);
        r
    }
}

proof fn lemma_volume_suffix_bound(e: Seq<int>, j: nat)
    requires
        forall|i: int| 0 <= i < e.len() ==> e[i] >= 1,
        j < e.len(),
    ensures
        e.skip(j as int).drop_first() == e.skip(j as int + 1),
        volume_of(e.skip(j as int)) == e[j as int] * volume_of(e.skip(j as int + 1)),
        volume_of(e.skip(j as int)) <= volume_of(e),
    decreases j,
{
    assert(e.skip(j as int).drop_first() =~= e.skip(j as int + 1));
    assert(is_extent(e.skip(j as int)));
    lemma_volume_nonneg(e.skip(j as int));
    if j == 0 {
        assert(e.skip(0) =~= e);
    } else {
        lemma_volume_suffix_bound(e, (j - 1) as nat);
        let v = volume_of(e.skip(j as int));
        assert(v <= e[j - 1] * v) by (nonlinear_arith)
            requires
                e[j - 1] >= 1,
                v >= 0,
        ;
    }
}

impl<const D: usize> PartialEq for Coord<D> {
    fn eq(&self, other: &Self) -> (r: bool) {
        let mut j: usize = 0;
        while j < D
            invariant
                j <= D,
                forall|i: int| 0 <= i < j ==> self@[i] == other@[i],
            decreases D - j,
        {
            if self.axes[j] != other.axes[j] {
                assert(self@[j as int] != other@[j as int]);
                return false;
            }
            j = j + 1;
        }
        assert(self@ =~= other@);
        true
    }
}

impl<const D: usize> vstd::std_specs::cmp::PartialEqSpecImpl for Coord<D> {
    open spec fn obeys_eq_spec() -> bool {
        true
    }

    open spec fn eq_spec(&self, other: &Self) -> bool {
        self@ == other@
    }
}

impl<const D: usize> Eq for Coord<D> {

}

/// A point of D-dimensional space is determined by its axes.
pub proof fn lemma_coord_view_injective<const D: usize>(a: Coord<D>, b: Coord<D>)
    requires
        a@ == b@,
    ensures
        a == b,
{
    assert forall|j: int| 0 <= j < D implies a.axes@[j] == b.axes@[j] by {
        assert(a@[j] == a.axes@[j] as int && b@[j] == b.axes@[j] as int);
    }
    assert(a.axes =~= b.axes);
}

/// Every axis of `a + b` (or of `a - b`, with `sign == -1`) fits in an `isize`.
pub open spec fn combines_in_range(a: Seq<int>, b: Seq<int>, sign: int) -> bool {
    forall|j: int|
        0 <= j < a.len() ==> isize::MIN <= #[trigger] a[j] + sign * b[j] <= isize::MAX
}

fn combine<const D: usize>(a: &Coord<D>, b: &Coord<D>, negate: bool) -> (r: Coord<D>)
    requires
        combines_in_range(a@, b@, if negate { -1 } else { 1 }),
    ensures
        r@ == Seq::new(D as nat, |j: int| if negate { a@[j] - b@[j] } else { a@[j] + b@[j] }),
{
    let mut out = a.axes;
    let mut j: usize = 0;
    while j < D
        invariant
            j <= D,
            combines_in_range(a@, b@, if negate { -1 } else { 1 }),
            forall|i: int|
                0 <= i < j ==> out@[i] == if negate {
                    a@[i] - b@[i]
                } else {
                    a@[i] + b@[i]
                },
        decreases D - j,
    {
        assert(isize::MIN <= a@[j as int] + (if negate { -1int } else { 1int }) * b@[j as int]
            <= isize::MAX);
        out[j] = if negate {
            a.axes[j] - b.axes[j]
        } else {
            a.axes[j] + b.axes[j]
        };
        j = j + 1;
    }
    let r = Coord { axes: out };
    assert(r@ =~= Seq::new(D as nat, |j: int| if negate { a@[j] - b@[j] } else { a@[j] + b@[j] }));
    r
}

impl<const D: usize> std::ops::Add for Coord<D> {
    type Output = Coord<D>;

    fn add(self, rhs: Self) -> (r: Self::Output) {
        let r = combine(&self, &rhs, false);
        proof {
            let c = choose|c: Coord<D>| c@ == add_axes(self@, rhs@);
            assert(r@ =~= add_axes(self@, rhs@));
            lemma_coord_view_injective(r, c);
        }
        r
    }
}

impl<const D: usize> vstd::std_specs::ops::AddSpecImpl for Coord<D> {
    open spec fn obeys_add_spec() -> bool {
        true
    }

    open spec fn add_req(self, rhs: Self) -> bool {
        combines_in_range(self@, rhs@, 1)
    }

    open spec fn add_spec(self, rhs: Self) -> Self::Output {
        choose|c: Coord<D>| c@ == add_axes(self@, rhs@)
    }
}

/// The componentwise difference of two points.
pub open spec fn sub_axes(a: Seq<int>, b: Seq<int>) -> Seq<int> {
    Seq::new(a.len(), |j: int| a[j] - b[j])
}

impl<const D: usize> std::ops::Sub for Coord<D> {
    type Output = Coord<D>;

    fn sub(self, rhs: Self) -> (r: Self::Output) {
        let r = combine(&self, &rhs, true);
        proof {
            let c = choose|c: Coord<D>| c@ == sub_axes(self@, rhs@);
            assert(r@ =~= sub_axes(self@, rhs@));
            lemma_coord_view_injective(r, c);
        }
        r
    }
}

impl<const D: usize> vstd::std_specs::ops::SubSpecImpl for Coord<D> {
    open spec fn obeys_sub_spec() -> bool {
        true
    }

    open spec fn sub_req(self, rhs: Self) -> bool {
        combines_in_range(self@, rhs@, -1)
    }

    open spec fn sub_spec(self, rhs: Self) -> Self::Output {
        choose|c: Coord<D>| c@ == sub_axes(self@, rhs@)
    }
}

/// Iterates every point of a box, first axis fastest: the point `begin + nth_offset(e, k)`
/// comes `k`-th, where `e` is the box's extent.
pub struct CartesianIter<const D: usize> {
    begin: Coord<D>,
    end_inclusive: Coord<D>,
    i: Coord<D>,
    /// Since i is always one ahead of the rest of the iterator, we need an overflow flag to
    /// know when it's gone off the end of the n-dimension extent
    overflow: bool,
    yielded: Ghost<int>,
}

impl<const D: usize> CartesianIter<D> {
    /// The first corner of the box.
    pub closed spec fn start(&self) -> Seq<int> {
        self.begin@
    }

    /// The extent of the box.
    pub closed spec fn extent(&self) -> Seq<int> {
        Seq::new(D as nat, |j: int| self.end_inclusive@[j] - self.begin@[j] + 1)
    }

    /// How many points have been yielded so far.
    pub closed spec fn position(&self) -> int {
        self.yielded@
    }

    pub closed spec fn wf(&self) -> bool {
        &&& is_extent(self.extent())
        &&& 0 <= self.yielded@ <= volume_of(self.extent())
        &&& self.overflow <==> self.yielded@ == volume_of(self.extent())
        &&& !self.overflow ==> self.i@ == add_axes(
            self.begin@,
            nth_offset(self.extent(), self.yielded@),
        )
    }

    /// Iterates the box from `begin` to `end_inclusive`, both corners included.
    pub fn new(begin: &Coord<D>, end_inclusive: &Coord<D>) -> (r: Self)
        requires
            forall|j: int| 0 <= j < D ==> #[trigger] end_inclusive@[j] >= begin@[j] - 1,
        ensures
            r.wf(),
            r.start() == begin@,
            r.extent() == Seq::new(D as nat, |j: int| end_inclusive@[j] - begin@[j] + 1),
            r.position() == 0,
    {
        // a box with an empty axis holds no point
        let mut empty = false;
        let mut j: usize = 0;
        while j < D
            invariant
                j <= D,
                empty <==> exists|i: int| 0 <= i < j && end_inclusive@[i] < begin@[i],
            decreases D - j,
        {
            assert(end_inclusive@[j as int] == end_inclusive.axes@[j as int]);
            assert(begin@[j as int] == begin.axes@[j as int]);
            if end_inclusive.axes[j] < begin.axes[j] {
                empty = true;
            }
            j = j + 1;
        }
        let r = Self {
            begin: *begin,
            end_inclusive: *end_inclusive,
            i: *begin,
            overflow: empty,
            yielded: Ghost(0),
        };
        proof {
            let e = r.extent();
            lemma_volume_zero(e);
            lemma_volume_nonneg(e);
            if !empty {
                lemma_first_offset(e);
                assert(r.i@ =~= add_axes(begin@, nth_offset(e, 0)));
            } else {
                let i = choose|i: int| 0 <= i < D && end_inclusive@[i] < begin@[i];
                assert(e[i] == 0);
            }
        }
        r
    }

    /// The next point of the box in scan order, or `None` once every point was yielded.
    pub fn next(&mut self) -> (r: Option<Coord<D>>)
        requires
            old(self).wf(),
        ensures
            final(self).wf(),
            final(self).start() == old(self).start(),
            final(self).extent() == old(self).extent(),
            old(self).position() < volume_of(old(self).extent()) ==> {
                &&& r.is_some()
                &&& r.unwrap()@ == add_axes(
                    old(self).start(),
                    nth_offset(old(self).extent(), old(self).position()),
                )
                &&& final(self).position() == old(self).position() + 1
            },
            old(self).position() >= volume_of(old(self).extent()) ==> {
                &&& r.is_none()
                &&& final(self).position() == old(self).position()
            },
    {
        let cur = self.i;

        // check and early return on overflow so self.i is not changed on the next iteration
        if self.overflow {
            return None;
        }
        let ghost e = self.extent();
        let ghost k = self.yielded@;
        let ghost c = nth_offset(e, k);
        proof {
            lemma_volume_nonneg(e);
            lemma_scan_order_covers_box(e, k, k);
        }
        let mut axes = self.i.axes;
        let mut digit: usize = 0;
        while digit < D
            invariant
                self.wf(),
                self.begin == old(self).begin,
                self.end_inclusive == old(self).end_inclusive,
                k == old(self).yielded@,
                e == old(self).extent(),
                e == self.extent(),
                k == self.yielded@,
                !self.overflow,
                0 <= k < volume_of(e),
                c == nth_offset(e, k),
                in_box(c, e),
                cur@ == add_axes(self.begin@, c),
                digit <= D,
                forall|j: int| 0 <= j < digit ==> c[j] == e[j] - 1,
                forall|j: int| 0 <= j < digit ==> axes@[j] == self.begin@[j],
                forall|j: int| digit <= j < D ==> axes@[j] == cur@[j],
            decreases D - digit,
        {
            // no overflow condition in the current digit, we can increment and return safely
            if axes[digit] < self.end_inclusive.axes[digit] {
                axes[digit] = axes[digit] + 1;
                proof {
                    lemma_next_offset_at(c, e, digit as int);
                    if k + 1 == volume_of(e) {
                        lemma_last_offset(e);
                        assert(c[digit as int] == e[digit as int] - 1);
                    }
                    lemma_next_offset(e, k);
                }
                self.i = Coord { axes };
                self.yielded = Ghost(k + 1);
                proof {
                    assert(self.i@ =~= add_axes(self.begin@, nth_offset(e, k + 1)));
                }
                return Some(cur);
            } else {
                // overflow case, reset current digit back to minimum and continue to the next
                // digit (carry)
                axes[digit] = self.begin.axes[digit];
            }
            digit = digit + 1;
        }
        // every digit carried: this was the very last point of the box
        proof {
            lemma_last_offset(e);
            lemma_scan_order_covers_box(e, k, volume_of(e) - 1);
            assert(c =~= nth_offset(e, volume_of(e) - 1));
        }
        self.i = Coord { axes };
        self.overflow = true;
        self.yielded = Ghost(k + 1);
        Some(cur)
    }
}

impl Coord<1> {
    pub fn new_1d(x: isize) -> (r: Self)
        ensures
            r@ == seq![x as int],
    {
        let r = Self::new([x]);
        assert(r@ =~= seq![x as int]);
        r
    }
}

impl Coord<2> {
    pub fn new_2d(x: isize, y: isize) -> (r: Self)
        ensures
            r@ == seq![x as int, y as int],
    {
        let r = Self::new([x, y]);
        assert(r@ =~= seq![x as int, y as int]);
        r
    }
}

impl Coord<3> {
    pub fn new_3d(x: isize, y: isize, z: isize) -> (r: Self)
        ensures
            r@ == seq![x as int, y as int, z as int],
    {
        let r = Self::new([x, y, z]);
        assert(r@ =~= seq![x as int, y as int, z as int]);
        r
    }
}

impl Coord<4> {
    pub fn new_4d(x: isize, y: isize, z: isize, w: isize) -> (r: Self)
        ensures
            r@ == seq![x as int, y as int, z as int, w as int],
    {
        let r = Self::new([x, y, z, w]);
        assert(r@ =~= seq![x as int, y as int, z as int, w as int]);
        r
    }
}

} // verus!
