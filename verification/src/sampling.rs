use vstd::prelude::*;
use rand::rngs::ThreadRng;
use rand::seq::SliceRandom;
use crate::budget::{allocate_voxel_budget, allocation, as_ints, lemma_allocation_spends_budget, min, nondecreasing};
use crate::voxel::{
    Cell, group_by_cell, group_sizes, group_views, in_some_group, is_cell_grouping,
    lemma_flatten_len, lemma_grouping_total, order_by_size, size_order_lt, strictly_ascending,
    group_cell, is_partial_grouping,
};

verus! {

/// rand's thread-local generator `rand::rngs::ThreadRng`, declared so that the sampling
/// functions can take it; nothing is known of its state.
#[verifier::external_type_specification]
#[verifier::external_body]
pub struct ExThreadRng(ThreadRng);

/// Shuffles the points with `SliceRandom::shuffle` of rand.
/// Trusted: rand's shuffle only swaps elements of the slice, so the same points come out,
/// each as often as before; their order depends on the generator and is not stated.
#[verifier::external_body]
fn shuffle_points(points: &mut Vec<usize>, rng: &mut ThreadRng)
    ensures
        final(points)@.to_multiset() == old(points)@.to_multiset(),
{
    points.shuffle(rng);
}

/// A copy of the points.
fn copy_points(points: &Vec<usize>) -> (copy: Vec<usize>)
    ensures
        copy@ == points@,
{
    let mut copy: Vec<usize> = Vec::new();
    for i in 0..points.len()
        invariant
            copy@ == points@.subrange(0, i as int),
    {
        copy.push(points[i]);
    }
    assert(points@.subrange(0, points@.len() as int) == points@);
    copy
}

/// Point `x` is in one of the first `j` groups.
pub open spec fn in_first_groups(groups: Seq<Seq<usize>>, j: int, x: usize) -> bool {
    exists|jj: int| 0 <= jj < j && #[trigger] groups[jj].contains(x)
}

/// `sel` is what a density-aware selection with the given budget picks when the cells are
/// served in the order of `groups`, group `j` giving up the points `chosen[j]`.
pub open spec fn selection_matches(
    cells: Seq<Cell>,
    budget: int,
    sel: Seq<usize>,
    groups: Seq<Seq<usize>>,
    chosen: Seq<Seq<usize>>,
) -> bool {
    &&& is_cell_grouping(cells, groups)
    &&& forall|j: int| 0 <= j < groups.len() ==> strictly_ascending(#[trigger] groups[j])
    &&& nondecreasing(group_sizes(groups))
    &&& chosen.len() == groups.len()
    &&& forall|j: int|
        0 <= j < groups.len() ==> {
            &&& (#[trigger] chosen[j]).len() == allocation(group_sizes(groups), budget)[j]
            &&& chosen[j].no_duplicates()
            &&& forall|t: int| 0 <= t < chosen[j].len() ==> groups[j].contains(chosen[j][t])
            &&& chosen[j].len() == groups[j].len() ==> chosen[j] == groups[j]
        }
    &&& sel == chosen.flatten()
}

/// `sel` is a density-aware selection of `budget` of the points that lie in `cells`: the
/// points are grouped by cell, the cells are served from the one with the fewest points to
/// the one with the most (the order among cells of equal size is not fixed), the budget is
/// shared out as `allocation` says, a cell that gets all its points gives them in ascending
/// order, and a cell that gets fewer gives some of its points, which ones is left to chance.
pub open spec fn is_density_aware_selection(cells: Seq<Cell>, budget: int, sel: Seq<usize>) -> bool {
    exists|groups: Seq<Seq<usize>>, chosen: Seq<Seq<usize>>|
        #[trigger] selection_matches(cells, budget, sel, groups, chosen)
}

/// Fairness of a density-aware selection: each cell gives at most the points it holds,
/// and no cell gives more than one point more than any cell that keeps some of its points.
pub proof fn lemma_selection_fair(
    cells: Seq<Cell>,
    budget: int,
    sel: Seq<usize>,
    groups: Seq<Seq<usize>>,
    chosen: Seq<Seq<usize>>,
)
    requires
        selection_matches(cells, budget, sel, groups, chosen),
        budget >= 0,
    ensures
        forall|u: int| 0 <= u < groups.len() ==> (#[trigger] chosen[u]).len() <= groups[u].len(),
        forall|u: int, w: int|
            0 <= u < groups.len() && 0 <= w < groups.len() && (#[trigger] chosen[u]).len()
                < groups[u].len() ==> (#[trigger] chosen[w]).len() <= chosen[u].len() + 1,
{
    let sizes = group_sizes(groups);
    assert(crate::budget::all_nonnegative(sizes));
    crate::budget::lemma_allocation_bounded(sizes, budget);
    crate::budget::lemma_allocation_fair(sizes, budget);
    let a = allocation(sizes, budget);
    assert forall|u: int| 0 <= u < groups.len() implies (#[trigger] chosen[u]).len() <= groups[u].len() by {
        assert(chosen[u].len() == a[u]);
        assert(sizes[u] == groups[u].len());
    }
    assert forall|u: int, w: int|
        0 <= u < groups.len() && 0 <= w < groups.len() && (#[trigger] chosen[u]).len()
            < groups[u].len() implies (#[trigger] chosen[w]).len() <= chosen[u].len() + 1 by {
        assert(chosen[u].len() == a[u]);
        assert(chosen[w].len() == a[w]);
        assert(sizes[u] == groups[u].len());
    }
}

/// Picks `min(budget, cells.len())` distinct points, sharing the budget out over the cells
/// that the points lie in so that sparse cells keep all or most of their points.
pub fn select_density_aware(cells: &Vec<Cell>, budget: usize, rng: &mut ThreadRng) -> (sel: Vec<usize>)
    ensures
        is_density_aware_selection(cells@, budget as int, sel@),
        sel@.no_duplicates(),
        forall|t: int| 0 <= t < sel@.len() ==> sel@[t] < cells@.len(),
        sel@.len() == min(budget as int, cells@.len() as int),
        budget >= cells@.len() ==> *final(rng) == *old(rng),
{
    let groups = group_by_cell(cells);
    let order = order_by_size(&groups);
    let m = groups.len();
    let ghost gv = group_views(groups@);

    let mut ordered: Vec<Vec<usize>> = Vec::new();
    let mut sizes: Vec<usize> = Vec::new();
    for t in 0..m
        invariant
            m == groups@.len(),
            m == order@.len(),
            gv == group_views(groups@),
            forall|u: int| 0 <= u < m ==> order@[u] < m,
            ordered@.len() == t,
            sizes@.len() == t,
            forall|u: int| 0 <= u < t ==> #[trigger] ordered@[u]@ == gv[order@[u] as int],
            forall|u: int| 0 <= u < t ==> #[trigger] sizes@[u] as int == ordered@[u]@.len(),
    {
        let group = copy_points(&groups[order[t]]);
        sizes.push(group.len());
        ordered.push(group);
    }
    let ghost og = group_views(ordered@);
    proof {
        assert forall|u: int| 0 <= u < m implies #[trigger] og[u] == gv[order@[u] as int] by {
            assert(ordered@[u]@ == gv[order@[u] as int]);
        }
        // The groups in size order still sort the points by cell.
        assert forall|a: int, b: int| 0 <= a < m && 0 <= b < m && a != b implies order@[a]
            != order@[b] by {
            if a < b {
                assert(size_order_lt(gv, order@[a], order@[b]));
            } else {
                assert(size_order_lt(gv, order@[b], order@[a]));
            }
        }
        assert forall|j: int| 0 <= j < og.len() implies #[trigger] og[j].len() > 0
            && og[j].no_duplicates() by {
            assert(og[j] == gv[order@[j] as int]);
        }
        assert forall|j: int, t: int| 0 <= j < og.len() && 0 <= t < og[j].len() implies (
        #[trigger] og[j][t]) < cells@.len() && cells@[og[j][t] as int] == group_cell(cells@, og[j]) by {
            assert(og[j] == gv[order@[j] as int]);
            assert(gv[order@[j] as int][t] == og[j][t]);
        }
        assert forall|j: int, k: int|
            #![trigger og[j], og[k]]
            0 <= j < og.len() && 0 <= k < og.len() && j != k implies group_cell(cells@, og[j])
            != group_cell(cells@, og[k]) by {
            assert(og[j] == gv[order@[j] as int]);
            assert(og[k] == gv[order@[k] as int]);
        }
        assert(is_partial_grouping(cells@, og));
        assert forall|i: usize| i < cells@.len() implies #[trigger] in_some_group(og, i) by {
            assert(in_some_group(gv, i));
            let k = choose|k: int| 0 <= k < gv.len() && gv[k].contains(i);
            assert(order@.contains(k as usize));
            let u = choose|u: int| 0 <= u < order@.len() && order@[u] == k as usize;
            assert(og[u] == gv[k]);
            assert(og[u].contains(i));
        }
        assert(is_cell_grouping(cells@, og));
        assert forall|j: int| 0 <= j < og.len() implies strictly_ascending(#[trigger] og[j]) by {
            assert(og[j] == gv[order@[j] as int]);
            assert(strictly_ascending(gv[order@[j] as int]));
        }
        assert(as_ints(sizes@) =~= group_sizes(og));
        assert forall|a: int, b: int| 0 <= a <= b < m implies group_sizes(og)[a] <= group_sizes(
            og,
        )[b] by {
            if a < b {
                assert(size_order_lt(gv, order@[a], order@[b]));
            }
        }
        assert(nondecreasing(group_sizes(og)));
    }

    let shares = allocate_voxel_budget(&sizes, budget);
    let ghost alloc = allocation(group_sizes(og), budget as int);
    proof {
        assert(as_ints(shares@) == alloc);
        assert(shares@.len() == m) by {
            assert(as_ints(shares@).len() == shares@.len());
            crate::budget::lemma_allocation_bounded(group_sizes(og), budget as int);
        }
        crate::budget::lemma_allocation_bounded(group_sizes(og), budget as int);
        assert forall|jj: int| 0 <= jj < m implies #[trigger] alloc[jj] <= og[jj].len() by {
            assert(group_sizes(og)[jj] == og[jj].len());
        }
        assert(cells@.len() <= usize::MAX) by {
            assert(cells.len() == cells@.len());
        }
        lemma_grouping_total(cells@, og);
        assert(crate::budget::all_nonnegative(group_sizes(og)));
        if budget >= cells@.len() {
            crate::budget::lemma_allocation_covers_all(group_sizes(og), budget as int);
            assert forall|jj: int| 0 <= jj < m implies #[trigger] alloc[jj] == og[jj].len() by {
                assert(group_sizes(og)[jj] == og[jj].len());
            }
        }
    }
    let ghost rng_before = *rng;

    let mut sel: Vec<usize> = Vec::new();
    let ghost mut chosen: Seq<Seq<usize>> = Seq::empty();
    for j in 0..m
        invariant
            m == ordered@.len(),
            m == shares@.len(),
            og == group_views(ordered@),
            is_cell_grouping(cells@, og),
            alloc == as_ints(shares@),
            forall|jj: int| 0 <= jj < m ==> #[trigger] alloc[jj] <= og[jj].len(),
            budget >= cells@.len() ==> forall|jj: int| 0 <= jj < m ==> #[trigger] alloc[jj] == og[jj].len(),
            budget >= cells@.len() ==> *rng == rng_before,
            chosen.len() == j,
            sel@ == chosen.flatten(),
            sel@.no_duplicates(),
            forall|t: int| 0 <= t < sel@.len() ==> in_first_groups(og, j as int, #[trigger] sel@[t]),
            forall|jj: int|
                0 <= jj < j ==> {
                    &&& (#[trigger] chosen[jj]).len() == alloc[jj]
                    &&& chosen[jj].no_duplicates()
                    &&& forall|t: int| 0 <= t < chosen[jj].len() ==> og[jj].contains(chosen[jj][t])
                    &&& chosen[jj].len() == og[jj].len() ==> chosen[jj] == og[jj]
                },
    {
        let take = shares[j];
        let group = &ordered[j];
        let ghost g = og[j as int];
        proof {
            assert(group@ == g);
            assert(alloc[j as int] == take as int);
        }
        let mut chunk: Vec<usize> = Vec::new();
        if take > 0 {
            if take >= group.len() {
                chunk = copy_points(group);
            } else {
                let mut points = copy_points(group);
                shuffle_points(&mut points, rng);
                proof {
                    broadcast use {vstd::seq_lib::group_to_multiset_ensures, vstd::multiset::group_multiset_axioms};
                    g.lemma_multiset_has_no_duplicates();
                    assert forall|x: usize| points@.to_multiset().contains(x) implies points@.to_multiset().count(x) == 1 by {
                        assert(g.to_multiset().contains(x));
                    }
                    points@.lemma_multiset_has_no_duplicates_conv();
                    assert forall|t: int| 0 <= t < points@.len() implies g.contains(points@[t]) by {
                        assert(points@.contains(points@[t]));
                        vstd::seq_lib::to_multiset_contains(points@, points@[t]);
                        vstd::seq_lib::to_multiset_contains(g, points@[t]);
                    }
                    vstd::seq_lib::to_multiset_len(points@);
                    vstd::seq_lib::to_multiset_len(g);
                }
                for t in 0..take
                    invariant
                        take < points@.len(),
                        points@.no_duplicates(),
                        forall|u: int| 0 <= u < points@.len() ==> g.contains(points@[u]),
                        chunk@ == points@.subrange(0, t as int),
                {
                    chunk.push(points[t]);
                }
            }
        }
        proof {
            assert(chunk@.len() == take);
            assert(chunk@.no_duplicates());
            assert forall|t: int| 0 <= t < chunk@.len() implies g.contains(chunk@[t]) by {
                if take >= g.len() {
                    assert(g[t] == chunk@[t]);
                }
            }
        }
        let ghost before = sel@;
        for t in 0..chunk.len()
            invariant
                sel@ == before + chunk@.subrange(0, t as int),
        {
            sel.push(chunk[t]);
        }
        proof {
            assert(chunk@.subrange(0, chunk@.len() as int) == chunk@);
            let c = chunk@;
            chosen.lemma_flatten_push(c);
            chosen = chosen.push(c);
            assert(sel@ == chosen.flatten());
            // The new points lie in a cell that no earlier group has.
            assert forall|t: int| 0 <= t < c.len() implies !before.contains(c[t]) by {
                if before.contains(c[t]) {
                    let u = choose|u: int| 0 <= u < before.len() && before[u] == c[t];
                    assert(in_first_groups(og, j as int, before[u]));
                    let jj = choose|jj: int| 0 <= jj < j && #[trigger] og[jj].contains(before[u]);
                    let a = choose|a: int| 0 <= a < og[jj].len() && og[jj][a] == before[u];
                    let b = choose|b: int| 0 <= b < g.len() && g[b] == c[t];
                }
            }
            assert forall|a: int, b: int| 0 <= a < sel@.len() && 0 <= b < sel@.len() && a != b implies sel@[a] != sel@[b] by {
                if a >= before.len() && b < before.len() {
                    assert(sel@[a] == c[a - before.len()]);
                    assert(before.contains(sel@[b]));
                } else if b >= before.len() && a < before.len() {
                    assert(sel@[b] == c[b - before.len()]);
                    assert(before.contains(sel@[a]));
                } else if a >= before.len() {
                    assert(sel@[a] == c[a - before.len()]);
                    assert(sel@[b] == c[b - before.len()]);
                } else {
                    assert(sel@[a] == before[a] && sel@[b] == before[b]);
                }
            }
            assert forall|t: int| 0 <= t < sel@.len() implies in_first_groups(og, j + 1, #[trigger] sel@[t]) by {
                if t < before.len() {
                    assert(sel@[t] == before[t]);
                    assert(in_first_groups(og, j as int, before[t]));
                } else {
                    assert(sel@[t] == c[t - before.len()]);
                    assert(og[j as int].contains(sel@[t]));
                }
            }
            assert forall|jj: int| 0 <= jj < j + 1 implies {
                &&& (#[trigger] chosen[jj]).len() == alloc[jj]
                &&& chosen[jj].no_duplicates()
                &&& forall|t: int| 0 <= t < chosen[jj].len() ==> og[jj].contains(chosen[jj][t])
                &&& chosen[jj].len() == og[jj].len() ==> chosen[jj] == og[jj]
            } by {
                if jj == j {
                    assert(chosen[jj] == c);
                    if c.len() == g.len() {
                        if take > 0 && take >= g.len() {
                            assert(c =~= g);
                        }
                    }
                }
            }
        }
    }
    proof {
        let n = cells@.len();
        lemma_flatten_len(chosen);
        assert(group_sizes(chosen) =~= alloc);
        lemma_allocation_spends_budget(group_sizes(og), budget as int);
        assert(cells@.len() <= usize::MAX) by {
            assert(cells.len() == cells@.len());
        }
        lemma_grouping_total(cells@, og);
        assert forall|t: int| 0 <= t < sel@.len() implies sel@[t] < cells@.len() by {
            assert(in_first_groups(og, m as int, sel@[t]));
            let jj = choose|jj: int| 0 <= jj < m && #[trigger] og[jj].contains(sel@[t]);
            crate::voxel::lemma_member_cell(cells@, og, jj, sel@[t]);
        }
        assert(selection_matches(cells@, budget as int, sel@, og, chosen));
    }
    sel
}

} // verus!
