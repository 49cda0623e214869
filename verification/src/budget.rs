use vstd::prelude::*;

verus! {

/// The values of `s` as mathematical integers.
pub open spec fn as_ints(s: Seq<usize>) -> Seq<int> {
    s.map_values(|x: usize| x as int)
}

/// The sum of `s`.
pub open spec fn sum(s: Seq<int>) -> int
    decreases s.len(),
{
    if s.len() == 0 {
        0
    } else {
        s[0] + sum(s.drop_first())
    }
}

/// The smaller of `a` and `b`.
pub open spec fn min(a: int, b: int) -> int {
    if a <= b {
        a
    } else {
        b
    }
}

/// No element of `s` is smaller than one before it.
pub open spec fn nondecreasing(s: Seq<int>) -> bool {
    forall|i: int, j: int| 0 <= i <= j < s.len() ==> s[i] <= s[j]
}

/// No element of `s` is negative.
pub open spec fn all_nonnegative(s: Seq<int>) -> bool {
    forall|i: int| 0 <= i < s.len() ==> s[i] >= 0
}

/// How many points each voxel receives when `budget` points are shared out over voxels
/// of the given sizes, in order: each voxel takes its fair share of what is left (what is
/// left divided by the number of voxels not yet served), and never more than it holds.
pub open spec fn allocation(sizes: Seq<int>, budget: int) -> Seq<int>
    decreases sizes.len(),
{
    if sizes.len() == 0 {
        Seq::empty()
    } else {
        let take = min(budget / (sizes.len() as int), sizes[0]);
        seq![take] + allocation(sizes.drop_first(), budget - take)
    }
}

/// Shares `budget` points out over voxels of the given sizes, in order: a voxel takes the
/// fair share of what is left, the last voxel all that is left, and none more than it holds.
pub fn allocate_voxel_budget(sizes: &Vec<usize>, budget: usize) -> (shares: Vec<usize>)
    ensures
        as_ints(shares@) == allocation(as_ints(sizes@), budget as int),
{
    let m = sizes.len();
    let mut remaining = budget;
    let mut shares: Vec<usize> = Vec::new();
    let ghost all = as_ints(sizes@);
    proof {
        assert(all.skip(0) =~= all);
        assert(as_ints(shares@) + all =~= all);
    }
    for i in 0..m
        invariant
            m == sizes.len(),
            all == as_ints(sizes@),
            shares@.len() == i,
            allocation(all, budget as int) == as_ints(shares@) + allocation(
                all.skip(i as int),
                remaining as int,
            ),
    {
        let voxels_remaining = m - i;
        let points = sizes[i];
        let fair_share = remaining / voxels_remaining;
        let take = if voxels_remaining == 1 {
            if remaining < points {
                remaining
            } else {
                points
            }
        } else {
            if fair_share < points {
                fair_share
            } else {
                points
            }
        };
        proof {
            let rest = all.skip(i as int);
            assert(rest.len() == voxels_remaining);
            assert(rest[0] == points);
            assert(rest.drop_first() =~= all.skip(i + 1));
            assert(remaining as int / 1 == remaining as int) by (nonlinear_arith);
            assert(take as int == min(remaining as int / (rest.len() as int), rest[0]));
            assert(allocation(rest, remaining as int) == seq![take as int] + allocation(
                all.skip(i + 1),
                remaining - take,
            ));
            assert(as_ints(shares@.push(take)) =~= as_ints(shares@).push(take as int));
            assert(take <= remaining) by (nonlinear_arith)
                requires
                    fair_share == remaining / voxels_remaining,
                    voxels_remaining >= 1,
                    take == fair_share || take == points || take == remaining,
                    take <= remaining || take <= fair_share,
            ;
        }
        shares.push(take);
        remaining = remaining - take;
    }
    proof {
        assert(all.skip(m as int) =~= Seq::<int>::empty());
        assert(as_ints(shares@) + Seq::<int>::empty() =~= as_ints(shares@));
    }
    shares
}

/// Every voxel receives between none and all of its points, and together no more than the budget.
pub proof fn lemma_allocation_bounded(sizes: Seq<int>, budget: int)
    requires
        all_nonnegative(sizes),
        budget >= 0,
    ensures
        allocation(sizes, budget).len() == sizes.len(),
        forall|i: int|
            0 <= i < sizes.len() ==> 0 <= #[trigger] allocation(sizes, budget)[i] <= sizes[i],
        sum(allocation(sizes, budget)) <= budget,
    decreases sizes.len(),
{
    if sizes.len() > 0 {
        let m = sizes.len() as int;
        let take = min(budget / m, sizes[0]);
        assert(0 <= budget / m <= budget) by (nonlinear_arith)
            requires
                m >= 1,
                budget >= 0,
        ;
        lemma_allocation_bounded(sizes.drop_first(), budget - take);
        let a = allocation(sizes, budget);
        assert(a.drop_first() =~= allocation(sizes.drop_first(), budget - take));
    }
}

/// A nondecreasing sequence whose first element is at least `c` sums to at least `c` per element.
proof fn lemma_sum_at_least(s: Seq<int>, c: int)
    requires
        nondecreasing(s),
        s.len() > 0 ==> s[0] >= c,
    ensures
        sum(s) >= s.len() * c,
    decreases s.len(),
{
    if s.len() > 0 {
        let t = s.drop_first();
        if t.len() > 0 {
            assert(t[0] == s[1]);
        }
        lemma_sum_at_least(t, c);
        assert(s.len() * c == t.len() * c + c) by (nonlinear_arith)
            requires
                s.len() == t.len() + 1,
        ;
    }
}

/// When the voxels are served from the smallest to the largest, the whole budget is
/// spent, or every point is taken when there are fewer points than the budget.
pub proof fn lemma_allocation_spends_budget(sizes: Seq<int>, budget: int)
    requires
        all_nonnegative(sizes),
        nondecreasing(sizes),
        budget >= 0,
    ensures
        sum(allocation(sizes, budget)) == min(budget, sum(sizes)),
    decreases sizes.len(),
{
    if sizes.len() > 0 {
        let m = sizes.len() as int;
        let q = budget / m;
        let s0 = sizes[0];
        let rest = sizes.drop_first();
        let take = min(q, s0);
        assert(0 <= q <= budget) by (nonlinear_arith)
            requires
                m >= 1,
                budget >= 0,
                q == budget / m,
        ;
        lemma_allocation_spends_budget(rest, budget - take);
        let a = allocation(sizes, budget);
        assert(a.drop_first() =~= allocation(rest, budget - take));
        assert(sum(a) == take + sum(allocation(rest, budget - take)));
        if m == 1 {
            assert(rest.len() == 0);
            assert(budget / 1 == budget) by (nonlinear_arith);
            assert(q == budget);
        } else if q < s0 {
            let t = budget % m;
            vstd::arithmetic::div_mod::lemma_fundamental_div_mod(budget, m);
            vstd::arithmetic::div_mod::lemma_mod_pos_bound(budget, m);
            assert(budget - q <= (m - 1) * (q + 1)) by (nonlinear_arith)
                requires
                    budget == m * q + t,
                    0 <= t < m,
                    m >= 2,
            ;
            if rest.len() > 0 {
                assert(rest[0] == sizes[1]);
            }
            lemma_sum_at_least(rest, q + 1);
        }
    }
}

/// With at most `c` points of budget per voxel and at least `c` points in every voxel,
/// no voxel receives more than `c`.
proof fn lemma_allocation_at_most(sizes: Seq<int>, budget: int, c: int)
    requires
        all_nonnegative(sizes),
        budget >= 0,
        budget <= sizes.len() * c,
        forall|i: int| 0 <= i < sizes.len() ==> sizes[i] >= c,
    ensures
        forall|i: int|
            0 <= i < sizes.len() ==> #[trigger] allocation(sizes, budget)[i] <= c,
    decreases sizes.len(),
{
    if sizes.len() > 0 {
        let m = sizes.len() as int;
        let q = budget / m;
        let t = budget % m;
        let rest = sizes.drop_first();
        vstd::arithmetic::div_mod::lemma_fundamental_div_mod(budget, m);
        vstd::arithmetic::div_mod::lemma_mod_pos_bound(budget, m);
        assert(q <= c) by (nonlinear_arith)
            requires
                budget == m * q + t,
                0 <= t < m,
                budget <= m * c,
        ;
        assert(q >= 0) by (nonlinear_arith)
            requires
                budget == m * q + t,
                0 <= t < m,
                budget >= 0,
        ;
        assert(budget - q <= (m - 1) * c) by {
            if q == c {
                assert(budget - q <= (m - 1) * c) by (nonlinear_arith)
                    requires
                        budget == m * q + t,
                        0 <= t < m,
                        q == c,
                        budget <= m * c,
                ;
            } else {
                assert(budget - q <= (m - 1) * c) by (nonlinear_arith)
                    requires
                        budget == m * q + t,
                        0 <= t < m,
                        q <= c - 1,
                        m >= 1,
                ;
            }
        }
        lemma_allocation_at_most(rest, budget - q, c);
        lemma_allocation_bounded(sizes, budget);
        let a = allocation(sizes, budget);
        assert(a.drop_first() =~= allocation(rest, budget - q));
        assert forall|i: int| 0 <= i < sizes.len() implies #[trigger] a[i] <= c by {
            if i > 0 {
                assert(a[i] == a.drop_first()[i - 1]);
            }
        }
    }
}

/// With at least `c` points of budget per voxel, every voxel that does not receive all its
/// points receives at least `c`.
proof fn lemma_allocation_incomplete_at_least(sizes: Seq<int>, budget: int, c: int)
    requires
        all_nonnegative(sizes),
        budget >= 0,
        budget >= sizes.len() * c,
    ensures
        forall|u: int|
            0 <= u < sizes.len() && #[trigger] allocation(sizes, budget)[u] < sizes[u] ==> allocation(
                sizes,
                budget,
            )[u] >= c,
    decreases sizes.len(),
{
    if sizes.len() > 0 {
        let m = sizes.len() as int;
        let q = budget / m;
        let t = budget % m;
        let rest = sizes.drop_first();
        let take = min(q, sizes[0]);
        vstd::arithmetic::div_mod::lemma_fundamental_div_mod(budget, m);
        vstd::arithmetic::div_mod::lemma_mod_pos_bound(budget, m);
        assert(q >= c) by (nonlinear_arith)
            requires
                budget == m * q + t,
                0 <= t < m,
                budget >= m * c,
        ;
        assert(0 <= q <= budget) by (nonlinear_arith)
            requires
                m >= 1,
                budget >= 0,
                q == budget / m,
        ;
        assert(budget - take >= (m - 1) * c) by (nonlinear_arith)
            requires
                budget == m * q + t,
                0 <= t < m,
                q >= c,
                take <= q,
                m >= 1,
        ;
        lemma_allocation_incomplete_at_least(rest, budget - take, c);
        lemma_allocation_bounded(sizes, budget);
        let a = allocation(sizes, budget);
        assert(a.drop_first() =~= allocation(rest, budget - take));
        assert forall|u: int| 0 <= u < sizes.len() && #[trigger] a[u] < sizes[u] implies a[u] >= c by {
            if u > 0 {
                assert(a[u] == a.drop_first()[u - 1]);
                assert(sizes[u] == rest[u - 1]);
            }
        }
    }
}

/// Fairness of the allocation: when the voxels are served from the smallest to the
/// largest, no voxel receives more than one point more than any voxel that does not
/// receive all its points.
pub proof fn lemma_allocation_fair(sizes: Seq<int>, budget: int)
    requires
        all_nonnegative(sizes),
        nondecreasing(sizes),
        budget >= 0,
    ensures
        forall|u: int, w: int|
            0 <= u < sizes.len() && 0 <= w < sizes.len() && #[trigger] allocation(sizes, budget)[u]
                < sizes[u] ==> #[trigger] allocation(sizes, budget)[w] <= allocation(sizes, budget)[u]
                + 1,
    decreases sizes.len(),
{
    if sizes.len() > 0 {
        let m = sizes.len() as int;
        let q = budget / m;
        let t = budget % m;
        let s0 = sizes[0];
        let rest = sizes.drop_first();
        let take = min(q, s0);
        vstd::arithmetic::div_mod::lemma_fundamental_div_mod(budget, m);
        vstd::arithmetic::div_mod::lemma_mod_pos_bound(budget, m);
        assert(0 <= q <= budget) by (nonlinear_arith)
            requires
                m >= 1,
                budget >= 0,
                q == budget / m,
        ;
        assert(budget >= m * q);
        lemma_allocation_fair(rest, budget - take);
        lemma_allocation_bounded(sizes, budget);
        lemma_allocation_bounded(rest, budget - take);
        let a = allocation(sizes, budget);
        let ra = allocation(rest, budget - take);
        assert(a.drop_first() =~= ra);
        assert(a[0] == take);
        assert forall|u: int, w: int|
            0 <= u < sizes.len() && 0 <= w < sizes.len() && #[trigger] a[u] < sizes[u] implies #[trigger] a[w]
                <= a[u] + 1 by {
            if u == 0 {
                if w > 0 {
                    // The first voxel took its fair share; every later voxel is larger than that
                    // share, and what is left is at most one point more per voxel.
                    assert(budget - q <= (m - 1) * (q + 1)) by (nonlinear_arith)
                        requires
                            budget == m * q + t,
                            0 <= t < m,
                            m >= 1,
                    ;
                    assert forall|i: int| 0 <= i < rest.len() implies rest[i] >= q + 1 by {
                        assert(rest[i] == sizes[i + 1]);
                    }
                    lemma_allocation_at_most(rest, budget - q, q + 1);
                    assert(a[w] == ra[w - 1]);
                }
            } else if w == 0 {
                // The fair share never shrinks, so a voxel left short later gets at least the
                // first voxel's share.
                lemma_allocation_incomplete_at_least(sizes, budget, q);
            } else {
                assert(a[u] == ra[u - 1]);
                assert(a[w] == ra[w - 1]);
                assert(sizes[u] == rest[u - 1]);
            }
        }
    }
}

/// Each element at most its counterpart gives a sum at most the other's.
proof fn lemma_sum_le(a: Seq<int>, b: Seq<int>)
    requires
        a.len() == b.len(),
        forall|i: int| 0 <= i < a.len() ==> a[i] <= b[i],
    ensures
        sum(a) <= sum(b),
    decreases a.len(),
{
    if a.len() > 0 {
        lemma_sum_le(a.drop_first(), b.drop_first());
    }
}

/// When the budget covers every point, every voxel receives all its points.
pub proof fn lemma_allocation_covers_all(sizes: Seq<int>, budget: int)
    requires
        all_nonnegative(sizes),
        nondecreasing(sizes),
        budget >= sum(sizes),
    ensures
        forall|i: int| 0 <= i < sizes.len() ==> #[trigger] allocation(sizes, budget)[i] == sizes[i],
{
    lemma_sum_nonnegative(sizes);
    lemma_allocation_bounded(sizes, budget);
    lemma_allocation_spends_budget(sizes, budget);
    lemma_sum_equal_pointwise(allocation(sizes, budget), sizes);
}

/// A sequence of non-negative values has a non-negative sum.
proof fn lemma_sum_nonnegative(s: Seq<int>)
    requires
        all_nonnegative(s),
    ensures
        sum(s) >= 0,
    decreases s.len(),
{
    if s.len() > 0 {
        lemma_sum_nonnegative(s.drop_first());
    }
}

/// Elementwise at most and equal in sum means equal elementwise.
proof fn lemma_sum_equal_pointwise(a: Seq<int>, b: Seq<int>)
    requires
        a.len() == b.len(),
        forall|i: int| 0 <= i < a.len() ==> a[i] <= b[i],
        sum(a) == sum(b),
    ensures
        forall|i: int| 0 <= i < a.len() ==> a[i] == b[i],
    decreases a.len(),
{
    if a.len() > 0 {
        lemma_sum_le(a.drop_first(), b.drop_first());
        lemma_sum_equal_pointwise(a.drop_first(), b.drop_first());
        assert forall|i: int| 0 <= i < a.len() implies a[i] == b[i] by {
            if i > 0 {
                assert(a[i] == a.drop_first()[i - 1]);
                assert(b[i] == b.drop_first()[i - 1]);
            }
        }
    }
}

} // verus!
