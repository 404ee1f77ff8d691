use vstd::prelude::*;

verus! {

/// Channel `a` switches off before channel `c`: its level is lower, or the levels are equal
/// and `a` is the lower index.
pub open spec fn before(levels: Seq<u8>, a: int, c: int) -> bool {
    levels[a] < levels[c] || (levels[a] == levels[c] && a < c)
}

/// 1 if channel `a` switches off before channel `c`, else 0.
pub open spec fn ahead(levels: Seq<u8>, a: int, c: int) -> int {
    if before(levels, a, c) { 1 } else { 0 }
}

/// The number of channels that switch off before channel `c`.
pub open spec fn rank(levels: Seq<u8>, c: int) -> int {
    ahead(levels, 0, c) + ahead(levels, 1, c) + ahead(levels, 2, c) + ahead(levels, 3, c)
        + ahead(levels, 4, c) + ahead(levels, 5, c) + ahead(levels, 6, c) + ahead(levels, 7, c)
}

/// The channel of rank `k`: the one that switches off at the end of step `k`.
pub open spec fn channel_at(levels: Seq<u8>, k: int) -> int {
    if rank(levels, 0) == k { 0 }
    else if rank(levels, 1) == k { 1 }
    else if rank(levels, 2) == k { 2 }
    else if rank(levels, 3) == k { 3 }
    else if rank(levels, 4) == k { 4 }
    else if rank(levels, 5) == k { 5 }
    else if rank(levels, 6) == k { 6 }
    else { 7 }
}

/// A rank is a number from 0 to 7: no channel switches off before itself.
pub proof fn lemma_rank_bounds(levels: Seq<u8>, c: int)
    requires
        0 <= c < 8,
    ensures
        0 <= rank(levels, c) <= 7,
{
}

/// A channel that switches off before another has the lower rank.
pub proof fn lemma_rank_monotone(levels: Seq<u8>, a: int, c: int)
    requires
        0 <= a < 8,
        0 <= c < 8,
        before(levels, a, c),
    ensures
        rank(levels, a) < rank(levels, c),
{
}

/// The channels in the order in which they switch off: by ascending level, and by ascending
/// index where levels are equal.
pub fn sorted_channels(levels: &[u8; 8]) -> (order: [usize; 8])
    ensures
        forall|k: int| 0 <= k < 8 ==> order[k] as int == channel_at(levels@, k),
        forall|k: int| 0 <= k < 8 ==> order[k] < 8 && rank(levels@, order[k] as int) == k,
        forall|c: int| 0 <= c < 8 ==> order[rank(levels@, c)] == c,
        forall|j: int, k: int|
            0 <= j < k < 8 ==> before(levels@, order[j] as int, order[k] as int),
{
    let mut order: [usize; 8] = [0, 1, 2, 3, 4, 5, 6, 7];
    let mut n: usize = 1;
    while n < 8
        invariant
            1 <= n <= 8,
            forall|j: int| 0 <= j < n ==> order[j] < n,
            forall|j: int| n <= j < 8 ==> order[j] == j,
            forall|j: int, k: int|
                0 <= j < k < n ==> before(levels@, order[j] as int, order[k] as int),
        decreases 8 - n,
    {
        let mut p: usize = n;
        while p > 0 && levels[order[p - 1]] > levels[n]
            invariant
                0 <= p <= n < 8,
                order[p as int] == n,
                forall|j: int| 0 <= j <= n && j != p ==> order[j] < n,
                forall|j: int| n < j < 8 ==> order[j] == j,
                forall|j: int, k: int|
                    0 <= j < k <= n && j != p && k != p ==> before(
                        levels@,
                        order[j] as int,
                        order[k] as int,
                    ),
                forall|k: int| p < k <= n ==> levels[order[k] as int] > levels[n as int],
            decreases p,
        {
            order[p] = order[p - 1];
            order[p - 1] = n;
            p -= 1;
        }
        proof {
            assert forall|j: int, k: int| 0 <= j < k <= n implies before(
                levels@,
                order[j] as int,
                order[k] as int,
            ) by {
                if k == p && j < p - 1 {
                    assert(before(levels@, order[j] as int, order[p - 1] as int));
                }
            }
        }
        n += 1;
    }
    proof {
        lemma_ranks_of_chain(levels@, order@);
        assert forall|c: int| 0 <= c < 8 implies order[rank(levels@, c)] == c by {
            lemma_rank_bounds(levels@, c);
            lemma_channel_at_rank(levels@, c);
        }
    }
    order
}

/// Eight channels listed so that each switches off before the next have the ranks 0 to 7,
/// in that order.
proof fn lemma_ranks_of_chain(levels: Seq<u8>, order: Seq<usize>)
    requires
        order.len() == 8,
        forall|j: int| 0 <= j < 8 ==> order[j] < 8,
        forall|j: int, k: int| 0 <= j < k < 8 ==> before(levels, order[j] as int, order[k] as int),
    ensures
        forall|k: int| 0 <= k < 8 ==> rank(levels, order[k] as int) == k,
        forall|k: int| 0 <= k < 8 ==> order[k] as int == channel_at(levels, k),
{
    let r = Seq::new(8, |k: int| rank(levels, order[k] as int));
    assert(r[0] < r[1] < r[2] < r[3] < r[4] < r[5] < r[6] < r[7]) by {
        lemma_rank_monotone(levels, order[0] as int, order[1] as int);
        lemma_rank_monotone(levels, order[1] as int, order[2] as int);
        lemma_rank_monotone(levels, order[2] as int, order[3] as int);
        lemma_rank_monotone(levels, order[3] as int, order[4] as int);
        lemma_rank_monotone(levels, order[4] as int, order[5] as int);
        lemma_rank_monotone(levels, order[5] as int, order[6] as int);
        lemma_rank_monotone(levels, order[6] as int, order[7] as int);
    }
    assert(0 <= r[0] && r[7] <= 7) by {
        lemma_rank_bounds(levels, order[0] as int);
        lemma_rank_bounds(levels, order[7] as int);
    }
    assert forall|k: int| 0 <= k < 8 implies rank(levels, order[k] as int) == k by {
        assert(r[k] == k);
    }
    assert forall|k: int| 0 <= k < 8 implies order[k] as int == channel_at(levels, k) by {
        lemma_channel_at_rank(levels, order[k] as int);
    }
}

/// The channel of rank `rank(c)` is `c`: no two channels share a rank.
pub proof fn lemma_channel_at_rank(levels: Seq<u8>, c: int)
    requires
        0 <= c < 8,
    ensures
        channel_at(levels, rank(levels, c)) == c,
{
    let d = channel_at(levels, rank(levels, c));
    if d != c {
        if before(levels, d, c) {
            lemma_rank_monotone(levels, d, c);
        } else {
            lemma_rank_monotone(levels, c, d);
        }
    }
}

/// Every rank from 0 to 7 belongs to a channel, and `channel_at` finds it.
pub proof fn lemma_rank_of_channel_at(levels: Seq<u8>, k: int)
    requires
        0 <= k < 8,
    ensures
        0 <= channel_at(levels, k) < 8,
        rank(levels, channel_at(levels, k)) == k,
{
    let r = Seq::new(8, |c: int| rank(levels, c));
    assert forall|c: int| 0 <= c < 8 implies 0 <= #[trigger] r[c] < 8 by {
        lemma_rank_bounds(levels, c);
    }
    assert forall|a: int, c: int| 0 <= a < c < 8 implies r[a] != r[c] by {
        if before(levels, a, c) {
            lemma_rank_monotone(levels, a, c);
        } else {
            lemma_rank_monotone(levels, c, a);
        }
    }
    lemma_one_each(r, k);
}

/// Eight different numbers between 0 and 7 include each of them.
proof fn lemma_one_each(r: Seq<int>, k: int)
    requires
        r.len() == 8,
        forall|i: int| 0 <= i < 8 ==> 0 <= #[trigger] r[i] < 8,
        forall|i: int, j: int| 0 <= i < j < 8 ==> r[i] != r[j],
        0 <= k < 8,
    ensures
        r[0] == k || r[1] == k || r[2] == k || r[3] == k || r[4] == k || r[5] == k || r[6] == k
            || r[7] == k,
{
}

/// The channels switch off by ascending level.
pub proof fn lemma_levels_ascend(levels: Seq<u8>, j: int, k: int)
    requires
        0 <= j <= k < 8,
    ensures
        levels[channel_at(levels, j)] <= levels[channel_at(levels, k)],
{
    lemma_rank_of_channel_at(levels, j);
    lemma_rank_of_channel_at(levels, k);
    let a = channel_at(levels, j);
    let c = channel_at(levels, k);
    if levels[a] > levels[c] {
        lemma_rank_monotone(levels, c, a);
    }
}

} // verus!
