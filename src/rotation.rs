//! The group of orientation-preserving right-angle rotations of D-dimensional
//! space: axis permutations with sign flips of determinant +1.
use vstd::prelude::*;
use vstd::arithmetic::div_mod::lemma_div_denominator;
use vstd::arithmetic::power::pow;
use vstd::arithmetic::power2::{lemma_pow2, pow2};
use vstd::bits::lemma_u32_shr_is_div;
use std::collections::HashSet;
use crate::permutation::{
    count_leaders, count_true, follow, is_cycle_leader, is_perm, perm_parity, reaches_below,
    lemma_count_true_all, lemma_count_true_bound, lemma_count_true_none, lemma_count_true_set, lemma_follow_add,
    lemma_follow_in_range, lemma_path_to_leader_on_cycle,
};

verus! {

/// Identifies an axis. 0=>X, 1=>Y, 2=>Z, etc.
pub type AxisId = usize;

/// A transformed axis is one that is derived from another axis (input_axis) and is optionally
/// negated
#[derive(Debug)]
pub struct TransformedAxis {
    pub input_axis: usize,
    pub negated: bool,
}

/// Ordered list of axes, along with their permutation parity from the non-rotated orientation
/// [X, Y, Z, W, ...]
#[derive(Debug)]
pub struct AxisPermutation {
    pub items: Vec<AxisId>,
    pub parity: bool,
}

/// The transformed basis vectors that encode a rotation. Each axis can be permuted in any order
/// and some can be negated according to parity rules.
pub type RotationConfiguration = Vec<TransformedAxis>;

/// `b` to the power `e`.
pub open spec fn power(b: nat, e: nat) -> nat
    decreases e,
{
    if e == 0 {
        1
    } else {
        b * power(b, (e - 1) as nat)
    }
}

/// Bit `j` of `c`.
pub open spec fn bit_of(c: nat, j: nat) -> bool {
    (c / power(2, j)) % 2 == 1
}

/// The number of set bits of `c` below bit `k`.
pub open spec fn bits_below(c: nat, k: nat) -> nat
    decreases k,
{
    if k == 0 {
        0
    } else {
        bits_below(c, (k - 1) as nat) + if bit_of(c, (k - 1) as nat) {
            1nat
        } else {
            0nat
        }
    }
}

/// No axis index occurs twice in `arr`.
pub open spec fn no_duplicates(arr: Seq<usize>) -> bool {
    forall|i: int, j: int| 0 <= i < j < arr.len() ==> arr[i] != arr[j]
}

/// The source axes of a rotation configuration.
pub open spec fn source_axes(cfg: Seq<TransformedAxis>) -> Seq<usize> {
    Seq::new(cfg.len(), |j: int| cfg[j].input_axis)
}

/// The number of negated axes of a rotation configuration.
pub open spec fn count_negated(cfg: Seq<TransformedAxis>) -> nat
    decreases cfg.len(),
{
    if cfg.len() == 0 {
        0
    } else {
        count_negated(cfg.drop_last()) + if cfg.last().negated {
            1nat
        } else {
            0nat
        }
    }
}

/// The configuration permutes the axes, and its sign flips make its determinant +1: the
/// number of negated axes has the parity of the permutation.
pub open spec fn is_orientation_preserving(cfg: Seq<TransformedAxis>) -> bool {
    &&& is_perm(source_axes(cfg))
    &&& (count_negated(cfg) % 2 == 1) == perm_parity(source_axes(cfg))
}

/// Sign-flip assignment number `c` for the permutation `p` of parity `odd`: bit `j` of `c`
/// negates axis `j` for every axis but the last, whose sign makes the count of negations have
/// the permutation's parity.
pub open spec fn negation_config(p: Seq<usize>, odd: bool, c: nat) -> Seq<TransformedAxis> {
    Seq::new(
        p.len(),
        |j: int|
            TransformedAxis {
                input_axis: p[j],
                negated: if j < p.len() - 1 {
                    bit_of(c, j as nat)
                } else {
                    odd != (bits_below(c, (p.len() - 1) as nat) % 2 == 1)
                },
            },
    )
}

/// Every sign-flip assignment of the permutation `p` of parity `odd`, in the order of their
/// numbers.
pub open spec fn negation_configs(p: Seq<usize>, odd: bool) -> Seq<Seq<TransformedAxis>> {
    Seq::new(power(2, (p.len() - 1) as nat), |c: int| negation_config(p, odd, c as nat))
}

/// Axis arrangement number `i` in dimension `d`: the `d` base-`d` digits of `i`, least
/// significant first.
pub open spec fn arrangement_of(d: nat, i: nat) -> Seq<usize> {
    Seq::new(d, |k: int| ((i / power(d, k as nat)) % d) as usize)
}

/// The rotations contributed by arrangements `0..i` of dimension `d`, in that order.
pub open spec fn rotations_upto(d: nat, i: nat) -> Seq<Seq<TransformedAxis>>
    decreases i,
{
    if i == 0 {
        Seq::empty()
    } else {
        let a = arrangement_of(d, (i - 1) as nat);
        rotations_upto(d, (i - 1) as nat) + if is_perm(a) {
            negation_configs(a, perm_parity(a))
        } else {
            Seq::empty()
        }
    }
}

/// Every orientation-preserving right-angle rotation of `d`-dimensional space, ordered by
/// arrangement number and then by sign-flip number.
pub open spec fn rotations(d: nat) -> Seq<Seq<TransformedAxis>> {
    rotations_upto(d, power(d, d))
}

proof fn lemma_power_positive(b: nat, e: nat)
    requires
        b > 0,
    ensures
        power(b, e) > 0,
    decreases e,
{
    if e > 0 {
        lemma_power_positive(b, (e - 1) as nat);
        assert(b * power(b, (e - 1) as nat) > 0) by (nonlinear_arith)
            requires
                b > 0,
                power(b, (e - 1) as nat) > 0,
        ;
    }
}

proof fn lemma_power_monotone(b: nat, e1: nat, e2: nat)
    requires
        b >= 1,
        e1 <= e2,
    ensures
        power(b, e1) <= power(b, e2),
    decreases e2,
{
    if e1 < e2 {
        lemma_power_monotone(b, e1, (e2 - 1) as nat);
        lemma_power_positive(b, (e2 - 1) as nat);
        assert(power(b, (e2 - 1) as nat) <= b * power(b, (e2 - 1) as nat)) by (nonlinear_arith)
            requires
                b >= 1,
        ;
    }
}

proof fn lemma_power_step(b: nat, e: nat)
    ensures
        power(b, e + 1) == power(b, e) * b,
{
    assert(power(b, e + 1) == b * power(b, e));
    assert(b * power(b, e) == power(b, e) * b) by (nonlinear_arith);
}

proof fn lemma_pow2_is_power(e: nat)
    ensures
        pow2(e) == power(2, e),
    decreases e,
{
    lemma_pow2(e);
    reveal(pow);
    if e > 0 {
        lemma_pow2_is_power((e - 1) as nat);
        lemma_pow2((e - 1) as nat);
    }
}

/// value of index'th bit in n
pub fn bit(n: u32, index: u32) -> (r: bool)
    requires
        index < 32,
    ensures
        r == bit_of(n as nat, index as nat),
{
    proof {
        lemma_u32_shr_is_div(n, index);
        lemma_pow2_is_power(index as nat);
        assert((n & (1u32 << index) != 0) == ((n >> index) & 1 == 1)) by (bit_vector)
            requires
                index < 32,
        ;
        let x = n >> index;
        assert(x & 1 == x % 2) by (bit_vector);
    }
    n & (1 << index) != 0
}

/// Calculates the parity of a permutation by walking its cycles: a cycle of
/// length `L` contributes `L - 1` transpositions. Returns `true` for an odd
/// permutation.
pub fn parity(arr: &[usize]) -> (r: bool)
    requires
        is_perm(arr@),
    ensures
        r == perm_parity(arr@),
{
    let n = arr.len();
    let ghost p = arr@;
    let mut parity = false;
    let mut visited: Vec<bool> = vec![false; n];
    let ghost mut marked: nat = 0;
    proof {
        assert(visited@ =~= Seq::new(n as nat, |i: int| false));
        assert forall|j: int| 0 <= j < n implies !reaches_below(p, j, 0) by {
            assert forall|k: nat| !(#[trigger] follow(p, j, k) < 0) by {
                lemma_follow_in_range(p, j, k);
            }
        }
        lemma_count_true_none(visited@);
    }
    let mut first: usize = 0;
    while first < n
        invariant
            p == arr@,
            is_perm(p),
            n == p.len(),
            first <= n,
            visited@.len() == n,
            forall|j: int| 0 <= j < n ==> (visited@[j] <==> reaches_below(p, j, first as int)),
            marked == count_true(visited@),
            parity == ((marked - count_leaders(p, first as int)) % 2 == 1),
        decreases n - first,
    {
        let s = first;
        if !visited[s] {
            // `s` is the least index of a cycle that has not been walked yet
            let ghost marked0 = marked;
            let ghost v0 = visited@;
            let mut idx = s;
            let mut cycle_len: usize = 0;
            let ghost mut step_of: Seq<nat> = Seq::new(n as nat, |j: int| 0nat);
            proof {
                assert(follow(p, s as int, 0) == s);
                lemma_count_true_bound(visited@);
            }
            while !visited[idx]
                invariant
                    p == arr@,
                    is_perm(p),
                    n == p.len(),
                    s < n,
                    !v0[s as int],
                    v0.len() == n,
                    forall|j: int| 0 <= j < n ==> (v0[j] <==> reaches_below(p, j, s as int)),
                    idx < n,
                    idx == follow(p, s as int, cycle_len as nat),
                    visited@.len() == n,
                    step_of.len() == n,
                    forall|j: int| 0 <= j < n && v0[j] ==> visited@[j],
                    forall|j: int|
                        0 <= j < n && #[trigger] visited@[j] && !v0[j] ==> step_of[j] < cycle_len
                            && follow(p, s as int, step_of[j]) == j,
                    forall|k: nat|
                        k < cycle_len ==> #[trigger] visited@[follow(p, s as int, k)] && !v0[follow(
                            p,
                            s as int,
                            k,
                        )],
                    forall|a: nat, b: nat|
                        a < b < cycle_len ==> #[trigger] follow(p, s as int, a) != #[trigger] follow(
                            p,
                            s as int,
                            b,
                        ),
                    marked == count_true(visited@),
                    marked <= n,
                    marked == marked0 + cycle_len,
                decreases n - marked,
            {
                proof {
                    lemma_count_true_set(visited@, idx as int);
                    lemma_count_true_bound(visited@.update(idx as int, true));
                    marked = marked + 1;
                    assert forall|k: nat| k < cycle_len implies #[trigger] follow(p, s as int, k)
                        != idx by {
                        lemma_follow_in_range(p, s as int, k);
                        assert(visited@[follow(p, s as int, k)]);
                    }
                }
                let ghost old_visited = visited@;
                visited.set(idx, true);
                proof {
                    step_of = step_of.update(idx as int, cycle_len as nat);
                    assert forall|k: nat| k <= cycle_len implies #[trigger] visited@[follow(
                        p,
                        s as int,
                        k,
                    )] && !v0[follow(p, s as int, k)] by {
                        lemma_follow_in_range(p, s as int, k);
                        if k < cycle_len {
                            assert(old_visited[follow(p, s as int, k)]);
                        }
                    }
                }
                idx = arr[idx];
                cycle_len = cycle_len + 1;
            }
            proof {
                // the walk closed its cycle at `s`
                assert(cycle_len >= 1);
                if v0[idx as int] {
                    let m = choose|m: nat| #[trigger] follow(p, idx as int, m) < s;
                    lemma_follow_add(p, s as int, cycle_len as nat, m);
                    assert(reaches_below(p, s as int, s as int));
                    assert(false);
                }
                let k = step_of[idx as int];
                assert(visited@[idx as int]);
                if k >= 1 {
                    lemma_follow_in_range(p, s as int, (k - 1) as nat);
                    lemma_follow_in_range(p, s as int, (cycle_len - 1) as nat);
                    assert(follow(p, s as int, k) == p[follow(p, s as int, (k - 1) as nat)] as int);
                    assert(follow(p, s as int, cycle_len as nat) == p[follow(
                        p,
                        s as int,
                        (cycle_len - 1) as nat,
                    )] as int);
                    assert(false);
                }
                assert(follow(p, s as int, cycle_len as nat) == s);
                assert(is_cycle_leader(p, s as int)) by {
                    assert forall|k: nat| #[trigger] follow(p, s as int, k) >= s by {
                        if follow(p, s as int, k) < s {
                            assert(reaches_below(p, s as int, s as int));
                        }
                    }
                }
                assert forall|j: int| 0 <= j < n implies (visited@[j] <==> reaches_below(
                    p,
                    j,
                    s + 1,
                )) by {
                    if visited@[j] && !v0[j] {
                        let k = step_of[j];
                        lemma_follow_add(p, s as int, k, (cycle_len - k) as nat);
                        assert(follow(p, j, (cycle_len - k) as nat) < s + 1);
                    }
                    if reaches_below(p, j, s + 1) && !v0[j] {
                        let m = choose|m: nat| #[trigger] follow(p, j, m) < s + 1;
                        if follow(p, j, m) < s {
                            assert(reaches_below(p, j, s as int));
                        }
                        lemma_path_to_leader_on_cycle(p, s as int, cycle_len as nat, j, m);
                        let k = choose|k: nat| k < cycle_len && #[trigger] follow(p, s as int, k) == j;
                        assert(visited@[follow(p, s as int, k)]);
                    }
                    if v0[j] {
                        let m = choose|m: nat| #[trigger] follow(p, j, m) < s;
                        assert(follow(p, j, m) < s + 1);
                    }
                }
            }
            parity = parity ^ ((cycle_len - 1) % 2 == 1);
        } else {
            proof {
                assert(!is_cycle_leader(p, s as int)) by {
                    let m = choose|m: nat| #[trigger] follow(p, s as int, m) < s;
                    assert(follow(p, s as int, m) < s);
                }
                assert forall|j: int| 0 <= j < n implies (visited@[j] <==> reaches_below(
                    p,
                    j,
                    s + 1,
                )) by {
                    if reaches_below(p, j, s + 1) {
                        let m = choose|m: nat| #[trigger] follow(p, j, m) < s + 1;
                        if follow(p, j, m) == s {
                            let m2 = choose|m2: nat| #[trigger] follow(p, s as int, m2) < s;
                            lemma_follow_add(p, j, m, m2);
                            assert(follow(p, j, m + m2) < s);
                        } else {
                            assert(follow(p, j, m) < s);
                        }
                    }
                    if visited@[j] {
                        let m = choose|m: nat| #[trigger] follow(p, j, m) < s;
                        assert(follow(p, j, m) < s + 1);
                    }
                }
            }
        }
        first = first + 1;
    }
    proof {
        assert forall|i: int| 0 <= i < n implies visited@[i] by {
            assert(follow(p, i, 0) < n);
        }
        lemma_count_true_all(visited@);
    }
    parity
}

/// A list of axes can only be a permutation of the non-rotated orientation [X, Y, Z, W, ...]
/// if there are no duplicates eg. [X, X, Z, W].
pub fn is_permutation(arr: &[AxisId]) -> (r: bool)
    ensures
        r == no_duplicates(arr@),
{
    broadcast use vstd::std_specs::hash::group_hash_axioms;

    let mut unique: HashSet<usize> = HashSet::new();
    let mut i: usize = 0;
    while i < arr.len()
        invariant
            i <= arr.len(),
            no_duplicates(arr@.subrange(0, i as int)),
            forall|x: usize| unique@.contains(x) <==> exists|k: int| 0 <= k < i && arr@[k] == x,
        decreases arr.len() - i,
    {
        if !unique.insert(arr[i]) {
            proof {
                let k = choose|k: int| 0 <= k < i && arr@[k] == arr@[i as int];
                assert(arr@[k] == arr@[i as int]);
            }
            return false;
        }
        proof {
            let sub = arr@.subrange(0, i as int + 1);
            assert forall|a: int, b: int| 0 <= a < b < sub.len() implies sub[a] != sub[b] by {
                if b < i {
                    assert(arr@.subrange(0, i as int)[a] == sub[a]);
                    assert(arr@.subrange(0, i as int)[b] == sub[b]);
                } else {
                    assert(!(exists|k: int| 0 <= k < i && arr@[k] == arr@[i as int]));
                }
            }
        }
        i = i + 1;
    }
    assert(arr@.subrange(0, arr.len() as int) =~= arr@);
    true
}

proof fn lemma_count_negated_prefix(cfg: Seq<TransformedAxis>, p: Seq<usize>, odd: bool, c: nat, m: nat)
    requires
        p.len() >= 1,
        cfg == negation_config(p, odd, c),
        m <= p.len() - 1,
    ensures
        count_negated(cfg.take(m as int)) == bits_below(c, m),
    decreases m,
{
    if m > 0 {
        lemma_count_negated_prefix(cfg, p, odd, c, (m - 1) as nat);
        assert(cfg.take(m as int).drop_last() =~= cfg.take(m - 1));
    }
}

/// Every sign-flip assignment of a permutation is orientation preserving.
proof fn lemma_negation_config_preserves_orientation(p: Seq<usize>, c: nat)
    requires
        p.len() >= 1,
        is_perm(p),
    ensures
        is_orientation_preserving(negation_config(p, perm_parity(p), c)),
{
    let cfg = negation_config(p, perm_parity(p), c);
    let l = p.len();
    assert(source_axes(cfg) =~= p);
    lemma_count_negated_prefix(cfg, p, perm_parity(p), c, (l - 1) as nat);
    assert(cfg.drop_last() =~= cfg.take(l - 1));
}

/// Given a permutation, give a list of all the different ways the axes can be negated. The
/// parity of the number of negations must equal that of the parity of the permutation.
pub fn enumerate_negations(permutation: AxisPermutation) -> (out: Vec<RotationConfiguration>)
    requires
        1 <= permutation.items.len() <= 32,
    ensures
        out@.len() == negation_configs(permutation.items@, permutation.parity).len(),
        forall|c: int|
            0 <= c < out@.len() ==> #[trigger] out@[c]@ == negation_configs(
                permutation.items@,
                permutation.parity,
            )[c],
{
    let len = permutation.items.len();
    let ghost p = permutation.items@;
    let ghost odd = permutation.parity;
    let last = len - 1;
    // there are 2^(n-1) possibilities for sign flips, one for each number below that
    proof {
        lemma_pow2_is_power(last as nat);
        vstd::bits::lemma_u32_pow2_no_overflow(last as nat);
        vstd::bits::lemma_u32_shl_is_mul(1, last as u32);
    }
    let count: u32 = 1u32 << (last as u32);
    let mut out: Vec<RotationConfiguration> = Vec::new();
    let mut c: u32 = 0;
    while c < count
        invariant
            p == permutation.items@,
            odd == permutation.parity,
            len == p.len(),
            1 <= len <= 32,
            last == len - 1,
            count == power(2, last as nat),
            c <= count,
            out@.len() == c,
            forall|k: int| 0 <= k < c ==> #[trigger] out@[k]@ == negation_config(p, odd, k as nat),
        decreases count - c,
    {
        let mut config: RotationConfiguration = Vec::new();
        let mut negation_parity = false;
        let mut j: usize = 0;
        while j < len
            invariant
                p == permutation.items@,
                odd == permutation.parity,
                len == p.len(),
                1 <= len <= 32,
                last == len - 1,
                j <= len,
                config@ =~= negation_config(p, odd, c as nat).take(j as int),
                j <= last ==> negation_parity == (bits_below(c as nat, j as nat) % 2 == 1),
            decreases len - j,
        {
            let negated = if j < last {
                let b = bit(c, j as u32);
                negation_parity = negation_parity ^ b;
                b
            } else {
                // the last axis's sign makes the parities agree
                permutation.parity ^ negation_parity
            };
            config.push(TransformedAxis { input_axis: permutation.items[j], negated });
            j = j + 1;
        }
        out.push(config);
        c = c + 1;
    }
    out
}

/// Treats `i` as a `dimension`-digit number in base `dimension` and returns its digits, least
/// significant first.
fn arrangement_digits(i: usize, dimension: usize) -> (out: Vec<AxisId>)
    requires
        dimension >= 1,
    ensures
        out@ == arrangement_of(dimension as nat, i as nat),
{
    let mut out: Vec<AxisId> = Vec::new();
    let mut rest = i;
    let mut digit: usize = 0;
    assert(power(dimension as nat, 0) == 1);
    while digit < dimension
        invariant
            dimension >= 1,
            digit <= dimension,
            rest == i as nat / power(dimension as nat, digit as nat),
            out@ =~= arrangement_of(dimension as nat, i as nat).take(digit as int),
        decreases dimension - digit,
    {
        out.push(rest % dimension);
        proof {
            lemma_power_positive(dimension as nat, digit as nat);
            lemma_div_denominator(i as int, power(dimension as nat, digit as nat) as int, dimension as int);
            lemma_power_step(dimension as nat, digit as nat);
        }
        rest = rest / dimension;
        digit = digit + 1;
    }
    out
}

/// Every orientation-preserving right-angle rotation of `dimension`-dimensional space, each
/// an axis permutation with sign flips of determinant +1.
///
/// See https://math.stackexchange.com/questions/2603222/simple-rotations-in-n-dimensions-limited-to-right-angle-rotations
pub fn rotation_permutations(dimension: usize) -> (out: Vec<RotationConfiguration>)
    requires
        1 <= dimension <= 32,
        power(dimension as nat, dimension as nat) <= usize::MAX,
    ensures
        out@.len() == rotations(dimension as nat).len(),
        forall|k: int| 0 <= k < out@.len() ==> #[trigger] out@[k]@ == rotations(dimension as nat)[k],
        forall|k: int| 0 <= k < out@.len() ==> is_orientation_preserving(#[trigger] out@[k]@),
{
    // arrangement: Axis permutation that may or may not have duplicates, ie. [X, X, Y] (has
    // duplicates, invalid) or [Z, Y, X] (no duplicates, valid permutation)
    let mut num_arrangements: usize = 1;
    let mut e: usize = 0;
    while e < dimension
        invariant
            1 <= dimension <= 32,
            power(dimension as nat, dimension as nat) <= usize::MAX,
            e <= dimension,
            num_arrangements == power(dimension as nat, e as nat),
        decreases dimension - e,
    {
        proof {
            lemma_power_monotone(dimension as nat, (e + 1) as nat, dimension as nat);
            lemma_power_step(dimension as nat, e as nat);
        }
        num_arrangements = num_arrangements * dimension;
        e = e + 1;
    }
    let ghost d = dimension as nat;
    let mut out: Vec<RotationConfiguration> = Vec::new();
    let mut i: usize = 0;
    while i < num_arrangements
        invariant
            1 <= dimension <= 32,
            d == dimension,
            num_arrangements == power(d, d),
            i <= num_arrangements,
            out@.len() == rotations_upto(d, i as nat).len(),
            forall|k: int| 0 <= k < out@.len() ==> #[trigger] out@[k]@ == rotations_upto(d, i as nat)[k],
            forall|k: int| 0 <= k < out@.len() ==> is_orientation_preserving(#[trigger] out@[k]@),
        decreases num_arrangements - i,
    {
        let arrangement = arrangement_digits(i, dimension);
        let ghost a = arrangement@;
        proof {
            assert forall|k: int| 0 <= k < a.len() implies a[k] < a.len() by {
                let q = i as nat / power(d, k as nat);
                assert(q % d < d) by (nonlinear_arith) requires d >= 1;
            }
        }
        // filter out arrangements that have duplicates as they are trivially invalid
        if is_permutation(&arrangement) {
            let parity = parity(&arrangement);
            let ghost chunk = negation_configs(a, parity);
            // Expand each permutation to every possible axis negation scenario
            let negations = enumerate_negations(AxisPermutation { items: arrangement, parity });
            let ghost before = out@;
            let mut negations = negations;
            let ghost old_negations = negations;
            out.append(&mut negations);
            proof {
                let next = rotations_upto(d, i as nat + 1);
                assert(arrangement_of(d, i as nat) == a);
                assert(next == rotations_upto(d, i as nat) + chunk);
                assert forall|k: int| 0 <= k < out@.len() implies #[trigger] out@[k]@ == next[k]
                    && is_orientation_preserving(out@[k]@) by {
                    if k >= before.len() {
                        let c = k - before.len();
                        assert(out@[k] == old_negations@[c]);
                        lemma_negation_config_preserves_orientation(a, c as nat);
                    }
                }
            }
        } else {
            proof {
                assert(arrangement_of(d, i as nat) == a);
                assert(rotations_upto(d, i as nat + 1) =~= rotations_upto(d, i as nat));
            }
        }
        i = i + 1;
    }
    out
}

/// Applies the rotation configuration `cfg` to the coordinate `c` of a box of extent `size`:
/// output axis `i` reads input axis `cfg[i].input_axis`, reflected within the box when negated.
pub open spec fn apply_configuration(cfg: Seq<TransformedAxis>, c: Seq<int>, size: Seq<int>) -> Seq<
    int,
> {
    Seq::new(
        cfg.len(),
        |i: int|
            {
                let a = cfg[i].input_axis as int;
                if cfg[i].negated {
                    size[a] - 1 - c[a]
                } else {
                    c[a]
                }
            },
    )
}

proof fn lemma_fixed_point_leader(p: Seq<usize>, i: int, k: nat)
    requires
        0 <= i < p.len(),
        p[i] == i,
    ensures
        follow(p, i, k) == i,
    decreases k,
{
    if k > 0 {
        lemma_fixed_point_leader(p, i, (k - 1) as nat);
    }
}

/// The rotations of the plane, in order: a quarter turn one way, a quarter turn the other way,
/// the identity, and the half turn.
pub proof fn lemma_rotations_2d()
    ensures
        rotations(2).len() == 4,
        rotations(2)[0] == seq![
            TransformedAxis { input_axis: 1, negated: false },
            TransformedAxis { input_axis: 0, negated: true },
        ],
        rotations(2)[1] == seq![
            TransformedAxis { input_axis: 1, negated: true },
            TransformedAxis { input_axis: 0, negated: false },
        ],
        rotations(2)[2] == seq![
            TransformedAxis { input_axis: 0, negated: false },
            TransformedAxis { input_axis: 1, negated: false },
        ],
        rotations(2)[3] == seq![
            TransformedAxis { input_axis: 0, negated: true },
            TransformedAxis { input_axis: 1, negated: true },
        ],
{
    assert(power(2, 0) == 1);
    assert(power(2, 1) == 2);
    assert(power(2, 2) == 4);
    let a0 = arrangement_of(2, 0);
    let a1 = arrangement_of(2, 1);
    let a2 = arrangement_of(2, 2);
    let a3 = arrangement_of(2, 3);
    assert(a0 =~= seq![0usize, 0usize]);
    assert(1nat / 1 == 1 && 1nat / 2 == 0 && 2nat / 1 == 2 && 2nat / 2 == 1);
    assert(a1[0] == 1 && a1[1] == 0);
    assert(a2[0] == 0 && a2[1] == 1);
    assert(3nat / 1 == 3 && 3nat / 2 == 1 && 3nat % 2 == 1);
    assert(a3[0] == 1 && a3[1] == 1);
    assert(a1 =~= seq![1usize, 0usize]);
    assert(a2 =~= seq![0usize, 1usize]);
    assert(a3 =~= seq![1usize, 1usize]);
    assert(!is_perm(a0));
    assert(!is_perm(a3));
    assert(is_perm(a1));
    assert(is_perm(a2));
    // [1, 0] is one cycle of length two: odd
    assert(is_cycle_leader(a1, 0)) by {
        assert forall|k: nat| #[trigger] follow(a1, 0, k) >= 0 by {
            lemma_follow_in_range(a1, 0, k);
        }
    }
    assert(follow(a1, 1, 1) == 0) by {
        assert(follow(a1, 1, 0) == 1);
    }
    assert(!is_cycle_leader(a1, 1));
    assert(count_leaders(a1, 2) == 1) by {
        assert(count_leaders(a1, 0) == 0);
        assert(count_leaders(a1, 1) == 1);
    }
    assert(perm_parity(a1));
    // [0, 1] is two fixed points: even
    assert(is_cycle_leader(a2, 0)) by {
        assert forall|k: nat| #[trigger] follow(a2, 0, k) >= 0 by {
            lemma_fixed_point_leader(a2, 0, k);
        }
    }
    assert(is_cycle_leader(a2, 1)) by {
        assert forall|k: nat| #[trigger] follow(a2, 1, k) >= 1 by {
            lemma_fixed_point_leader(a2, 1, k);
        }
    }
    assert(count_leaders(a2, 2) == 2) by {
        assert(count_leaders(a2, 0) == 0);
        assert(count_leaders(a2, 1) == 1);
    }
    assert(!perm_parity(a2));
    assert(bits_below(0, 1) == 0) by {
        assert(0nat / power(2, 0) == 0);
        assert(bit_of(0, 0) == false);
        assert(bits_below(0, 0) == 0);
    }
    assert(bits_below(1, 1) == 1) by {
        assert(1nat / power(2, 0) == 1);
        assert(bit_of(1, 0) == true);
        assert(bits_below(1, 0) == 0);
    }
    let n1 = negation_configs(a1, true);
    let n2 = negation_configs(a2, false);
    assert(n1[0] =~= seq![
        TransformedAxis { input_axis: 1, negated: false },
        TransformedAxis { input_axis: 0, negated: true },
    ]);
    assert(n1[1] =~= seq![
        TransformedAxis { input_axis: 1, negated: true },
        TransformedAxis { input_axis: 0, negated: false },
    ]);
    assert(n2[0] =~= seq![
        TransformedAxis { input_axis: 0, negated: false },
        TransformedAxis { input_axis: 1, negated: false },
    ]);
    assert(n2[1] =~= seq![
        TransformedAxis { input_axis: 0, negated: true },
        TransformedAxis { input_axis: 1, negated: true },
    ]);
    assert(rotations_upto(2, 0) =~= Seq::<Seq<TransformedAxis>>::empty());
    assert(rotations_upto(2, 1) == rotations_upto(2, 0) + Seq::<Seq<TransformedAxis>>::empty());
    assert(rotations_upto(2, 1) =~= Seq::<Seq<TransformedAxis>>::empty());
    assert(rotations_upto(2, 2) =~= n1);
    assert(rotations_upto(2, 3) =~= n1 + n2);
    assert(rotations_upto(2, 4) =~= n1 + n2);
}

} // verus!
