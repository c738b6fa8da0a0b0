//! Permutations of `0..n` held as sequences of axis indices, their cycles and
//! their parity.
use vstd::prelude::*;

verus! {

/// `p` maps `0..p.len()` one to one onto itself.
pub open spec fn is_perm(p: Seq<usize>) -> bool {
    &&& forall|i: int| 0 <= i < p.len() ==> p[i] < p.len()
    &&& forall|i: int, j: int| 0 <= i < j < p.len() ==> p[i] != p[j]
}

/// The index reached from `i` after following `p` `k` times.
pub open spec fn follow(p: Seq<usize>, i: int, k: nat) -> int
    decreases k,
{
    if k == 0 {
        i
    } else {
        p[follow(p, i, (k - 1) as nat)] as int
    }
}

/// `i` is the least index on its cycle of `p`.
pub open spec fn is_cycle_leader(p: Seq<usize>, i: int) -> bool {
    forall|k: nat| #[trigger] follow(p, i, k) >= i
}

/// The number of cycle leaders below `n`.
pub open spec fn count_leaders(p: Seq<usize>, n: int) -> nat
    decreases n,
{
    if n <= 0 {
        0
    } else {
        count_leaders(p, n - 1) + if is_cycle_leader(p, n - 1) {
            1nat
        } else {
            0nat
        }
    }
}

/// The number of disjoint cycles of `p`, fixed points included.
pub open spec fn num_cycles(p: Seq<usize>) -> nat {
    count_leaders(p, p.len() as int)
}

/// The parity of a permutation: `true` when it is odd, that is when
/// `n - (number of cycles)` is odd.
pub open spec fn perm_parity(p: Seq<usize>) -> bool {
    (p.len() - num_cycles(p)) % 2 == 1
}

/// Some index on the path from `j` lies below `s`.
pub open spec fn reaches_below(p: Seq<usize>, j: int, s: int) -> bool {
    exists|k: nat| #[trigger] follow(p, j, k) < s
}

/// The number of `true` entries of `v`.
pub open spec fn count_true(v: Seq<bool>) -> nat
    decreases v.len(),
{
    if v.len() == 0 {
        0
    } else {
        count_true(v.drop_last()) + if v.last() {
            1nat
        } else {
            0nat
        }
    }
}

pub proof fn lemma_count_true_bound(v: Seq<bool>)
    ensures
        count_true(v) <= v.len(),
    decreases v.len(),
{
    if v.len() > 0 {
        lemma_count_true_bound(v.drop_last());
    }
}

pub proof fn lemma_count_true_none(v: Seq<bool>)
    requires
        forall|i: int| 0 <= i < v.len() ==> !v[i],
    ensures
        count_true(v) == 0,
    decreases v.len(),
{
    if v.len() > 0 {
        lemma_count_true_none(v.drop_last());
    }
}

pub proof fn lemma_count_true_all(v: Seq<bool>)
    requires
        forall|i: int| 0 <= i < v.len() ==> v[i],
    ensures
        count_true(v) == v.len(),
    decreases v.len(),
{
    if v.len() > 0 {
        lemma_count_true_all(v.drop_last());
    }
}

pub proof fn lemma_count_true_set(v: Seq<bool>, i: int)
    requires
        0 <= i < v.len(),
        !v[i],
    ensures
        count_true(v.update(i, true)) == count_true(v) + 1,
    decreases v.len(),
{
    let w = v.update(i, true);
    if i < v.len() - 1 {
        assert(w.drop_last() =~= v.drop_last().update(i, true));
        lemma_count_true_set(v.drop_last(), i);
    } else {
        assert(w.drop_last() =~= v.drop_last());
    }
}

pub proof fn lemma_follow_add(p: Seq<usize>, i: int, a: nat, b: nat)
    ensures
        follow(p, i, a + b) == follow(p, follow(p, i, a), b),
    decreases b,
{
    if b > 0 {
        lemma_follow_add(p, i, a, (b - 1) as nat);
        assert(follow(p, i, a + b) == p[follow(p, i, (a + b - 1) as nat)] as int);
    }
}

pub proof fn lemma_follow_in_range(p: Seq<usize>, i: int, k: nat)
    requires
        is_perm(p),
        0 <= i < p.len(),
    ensures
        0 <= follow(p, i, k) < p.len(),
    decreases k,
{
    if k > 0 {
        lemma_follow_in_range(p, i, (k - 1) as nat);
    }
}

/// On a cycle of `p` through `s` of length `len`, every index whose path meets
/// `s` is one of the first `len` indices from `s`.
pub proof fn lemma_path_to_leader_on_cycle(p: Seq<usize>, s: int, len: nat, j: int, m: nat)
    requires
        is_perm(p),
        0 <= s < p.len(),
        0 <= j < p.len(),
        len >= 1,
        follow(p, s, len) == s,
        follow(p, j, m) == s,
    ensures
        exists|k: nat| k < len && #[trigger] follow(p, s, k) == j,
    decreases m,
{
    if m == 0 {
        assert(follow(p, s, 0) == j);
    } else {
        let q = p[j] as int;
        lemma_follow_add(p, j, 1, (m - 1) as nat);
        assert(follow(p, j, 0) == j);
        assert(follow(p, j, 1) == q);
        lemma_path_to_leader_on_cycle(p, s, len, q, (m - 1) as nat);
        let k1 = choose|k: nat| k < len && #[trigger] follow(p, s, k) == q;
        if k1 >= 1 {
            let prev = follow(p, s, (k1 - 1) as nat);
            lemma_follow_in_range(p, s, (k1 - 1) as nat);
            assert(follow(p, s, k1) == p[prev] as int);
            assert(prev == j);
            assert(follow(p, s, (k1 - 1) as nat) == j);
        } else {
            let prev = follow(p, s, (len - 1) as nat);
            lemma_follow_in_range(p, s, (len - 1) as nat);
            assert(follow(p, s, len) == p[prev] as int);
            assert(prev == j);
            assert(follow(p, s, (len - 1) as nat) == j);
        }
    }
}

} // verus!
