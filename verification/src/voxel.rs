use vstd::prelude::*;
use std::collections::HashMap;
use crate::order::{pack, pack_key, unpack_key, sort_keys, lemma_pack_order};

verus! {

broadcast use vstd::std_specs::hash::group_hash_axioms;

/// The integer coordinates of a grid voxel.
pub type Cell = (i32, i32, i32);

/// An `i32` shifted to a non-negative value below 2^32.
pub open spec fn bias(x: i32) -> int {
    x as int + 0x8000_0000
}

/// A key that tells cells apart: the three biased coordinates as base-2^32 digits.
pub open spec fn cell_key(c: Cell) -> int {
    bias(c.0) * 0x1_0000_0000_0000_0000 + bias(c.1) * 0x1_0000_0000 + bias(c.2)
}

/// Different cells have different keys.
pub proof fn lemma_cell_key_injective(a: Cell, b: Cell)
    requires
        cell_key(a) == cell_key(b),
    ensures
        a == b,
{
    let lo_a = bias(a.1) * 0x1_0000_0000 + bias(a.2);
    let lo_b = bias(b.1) * 0x1_0000_0000 + bias(b.2);
    assert(0 <= lo_a < 0x1_0000_0000_0000_0000) by (nonlinear_arith)
        requires
            lo_a == bias(a.1) * 0x1_0000_0000 + bias(a.2),
            0 <= bias(a.1) < 0x1_0000_0000,
            0 <= bias(a.2) < 0x1_0000_0000,
    ;
    assert(0 <= lo_b < 0x1_0000_0000_0000_0000) by (nonlinear_arith)
        requires
            lo_b == bias(b.1) * 0x1_0000_0000 + bias(b.2),
            0 <= bias(b.1) < 0x1_0000_0000,
            0 <= bias(b.2) < 0x1_0000_0000,
    ;
    let k = cell_key(a);
    vstd::arithmetic::div_mod::lemma_fundamental_div_mod_converse(
        k,
        0x1_0000_0000_0000_0000,
        bias(a.0),
        lo_a,
    );
    vstd::arithmetic::div_mod::lemma_fundamental_div_mod_converse(
        k,
        0x1_0000_0000_0000_0000,
        bias(b.0),
        lo_b,
    );
    vstd::arithmetic::div_mod::lemma_fundamental_div_mod_converse(
        lo_a,
        0x1_0000_0000,
        bias(a.1),
        bias(a.2),
    );
    vstd::arithmetic::div_mod::lemma_fundamental_div_mod_converse(
        lo_b,
        0x1_0000_0000,
        bias(b.1),
        bias(b.2),
    );
}

/// The key of a cell.
fn cell_key_of(c: Cell) -> (key: u128)
    ensures
        key == cell_key(c),
{
    let x = (c.0 as i64 + 0x8000_0000i64) as u128;
    let y = (c.1 as i64 + 0x8000_0000i64) as u128;
    let z = (c.2 as i64 + 0x8000_0000i64) as u128;
    assert(x * 0x1_0000_0000_0000_0000 + y * 0x1_0000_0000 + z < 0x1_0000_0000_0000_0000_0000_0000)
        by (nonlinear_arith)
        requires
            x < 0x1_0000_0000,
            y < 0x1_0000_0000,
            z < 0x1_0000_0000,
    ;
    x * 0x1_0000_0000_0000_0000u128 + y * 0x1_0000_0000u128 + z
}

/// The contents of each group.
pub open spec fn group_views(groups: Seq<Vec<usize>>) -> Seq<Seq<usize>> {
    groups.map_values(|g: Vec<usize>| g@)
}

/// The cell that a group's points share: that of its first point.
pub open spec fn group_cell(cells: Seq<Cell>, group: Seq<usize>) -> Cell {
    cells[group[0] as int]
}

/// `s` is in strictly ascending order.
pub open spec fn strictly_ascending(s: Seq<usize>) -> bool {
    forall|a: int, b: int| 0 <= a < b < s.len() ==> s[a] < s[b]
}

/// Point `i` is in one of the groups.
pub open spec fn in_some_group(groups: Seq<Seq<usize>>, i: usize) -> bool {
    exists|j: int| 0 <= j < groups.len() && #[trigger] groups[j].contains(i)
}

/// Every group is a non-empty list of distinct points that share one cell, and no two
/// groups share a cell.
pub open spec fn is_partial_grouping(cells: Seq<Cell>, groups: Seq<Seq<usize>>) -> bool {
    &&& forall|j: int|
        0 <= j < groups.len() ==> #[trigger] groups[j].len() > 0 && groups[j].no_duplicates()
    &&& forall|j: int, t: int|
        0 <= j < groups.len() && 0 <= t < groups[j].len() ==> (#[trigger] groups[j][t]) < cells.len()
            && cells[groups[j][t] as int] == group_cell(cells, groups[j])
    &&& forall|j: int, k: int|
        #![trigger groups[j], groups[k]]
        0 <= j < groups.len() && 0 <= k < groups.len() && j != k ==> group_cell(cells, groups[j])
            != group_cell(cells, groups[k])
}

/// `groups` sorts the points `0..cells.len()` by cell: every group is a non-empty list of
/// distinct points that share one cell, no two groups share a cell, and every point is in a group.
pub open spec fn is_cell_grouping(cells: Seq<Cell>, groups: Seq<Seq<usize>>) -> bool {
    &&& is_partial_grouping(cells, groups)
    &&& forall|i: usize| i < cells.len() ==> #[trigger] in_some_group(groups, i)
}

/// The number of points in each group.
pub open spec fn group_sizes(groups: Seq<Seq<usize>>) -> Seq<int> {
    groups.map_values(|g: Seq<usize>| g.len() as int)
}

/// All groups laid end to end hold as many points as the groups together.
pub proof fn lemma_flatten_len(groups: Seq<Seq<usize>>)
    ensures
        groups.flatten().len() == crate::budget::sum(group_sizes(groups)),
    decreases groups.len(),
{
    if groups.len() > 0 {
        lemma_flatten_len(groups.drop_first());
        assert(group_sizes(groups).drop_first() =~= group_sizes(groups.drop_first()));
    }
}

/// A point of a group lies in the group's cell.
pub proof fn lemma_member_cell(cells: Seq<Cell>, groups: Seq<Seq<usize>>, j: int, x: usize)
    requires
        is_partial_grouping(cells, groups),
        0 <= j < groups.len(),
        groups[j].contains(x),
    ensures
        x < cells.len(),
        cells[x as int] == group_cell(cells, groups[j]),
{
    let t = choose|t: int| 0 <= t < groups[j].len() && groups[j][t] == x;
    assert(groups[j][t] == x);
}

/// The groups of a partial grouping, laid end to end, repeat no point, and hold exactly
/// the points of the groups.
pub proof fn lemma_flatten_distinct(cells: Seq<Cell>, groups: Seq<Seq<usize>>)
    requires
        is_partial_grouping(cells, groups),
    ensures
        groups.flatten().no_duplicates(),
        forall|t: int|
            0 <= t < groups.flatten().len() ==> #[trigger] in_some_group(groups, groups.flatten()[t]),
        forall|j: int, t: int|
            0 <= j < groups.len() && 0 <= t < groups[j].len() ==> groups.flatten().contains(
                #[trigger] groups[j][t],
            ),
    decreases groups.len(),
{
    if groups.len() > 0 {
        let rest = groups.drop_first();
        let g0 = groups[0];
        assert forall|j: int| 0 <= j < rest.len() implies #[trigger] rest[j].len() > 0
            && rest[j].no_duplicates() by {
            assert(rest[j] == groups[j + 1]);
        }
        assert forall|j: int, t: int| 0 <= j < rest.len() && 0 <= t < rest[j].len() implies (
        #[trigger] rest[j][t]) < cells.len() && cells[rest[j][t] as int] == group_cell(
            cells,
            rest[j],
        ) by {
            assert(rest[j] == groups[j + 1]);
            assert(groups[j + 1][t] == rest[j][t]);
        }
        assert forall|j: int, k: int|
            #![trigger rest[j], rest[k]]
            0 <= j < rest.len() && 0 <= k < rest.len() && j != k implies group_cell(cells, rest[j])
            != group_cell(cells, rest[k]) by {
            assert(rest[j] == groups[j + 1] && rest[k] == groups[k + 1]);
        }
        lemma_flatten_distinct(cells, rest);
        let fr = rest.flatten();
        let f = groups.flatten();
        assert(f == g0 + fr);
        assert forall|t: int| 0 <= t < fr.len() implies cells[fr[t] as int] != group_cell(cells, g0)
            && in_some_group(groups, fr[t]) by {
            assert(in_some_group(rest, fr[t]));
            let j = choose|j: int| 0 <= j < rest.len() && rest[j].contains(fr[t]);
            assert(rest[j] == groups[j + 1]);
            lemma_member_cell(cells, groups, j + 1, fr[t]);
            assert(groups[j + 1].contains(fr[t]));
        }
        assert forall|a: int, b: int| 0 <= a < f.len() && 0 <= b < f.len() && a != b implies f[a]
            != f[b] by {
            if a < g0.len() && b >= g0.len() {
                assert(g0.contains(f[a]));
                lemma_member_cell(cells, groups, 0, f[a]);
                assert(f[b] == fr[b - g0.len()]);
            } else if b < g0.len() && a >= g0.len() {
                assert(g0.contains(f[b]));
                lemma_member_cell(cells, groups, 0, f[b]);
                assert(f[a] == fr[a - g0.len()]);
            } else if a >= g0.len() {
                assert(f[a] == fr[a - g0.len()]);
                assert(f[b] == fr[b - g0.len()]);
            }
        }
        assert forall|t: int| 0 <= t < f.len() implies #[trigger] in_some_group(groups, f[t]) by {
            if t < g0.len() {
                assert(g0[t] == f[t]);
                assert(groups[0].contains(f[t]));
            } else {
                assert(f[t] == fr[t - g0.len()]);
            }
        }
        assert forall|j: int, t: int| 0 <= j < groups.len() && 0 <= t < groups[j].len() implies f.contains(
            #[trigger] groups[j][t],
        ) by {
            if j == 0 {
                assert(f[t] == g0[t]);
            } else {
                assert(rest[j - 1] == groups[j]);
                assert(rest[j - 1][t] == groups[j][t]);
                assert(fr.contains(groups[j][t]));
                let u = choose|u: int| 0 <= u < fr.len() && fr[u] == groups[j][t];
                assert(f[u + g0.len()] == fr[u]);
            }
        }
    }
}

/// The groups of a grouping of `n` points hold `n` points together.
pub proof fn lemma_grouping_total(cells: Seq<Cell>, groups: Seq<Seq<usize>>)
    requires
        is_cell_grouping(cells, groups),
        cells.len() <= usize::MAX,
    ensures
        crate::budget::sum(group_sizes(groups)) == cells.len(),
{
    broadcast use {vstd::seq_lib::group_to_multiset_ensures, vstd::multiset::group_multiset_axioms};

    lemma_flatten_distinct(cells, groups);
    lemma_flatten_len(groups);
    let f = groups.flatten();
    let n = cells.len();
    let r = Seq::new(n, |i: int| i as usize);
    assert(r.no_duplicates());
    assert forall|x: usize| f.contains(x) <==> r.contains(x) by {
        if f.contains(x) {
            let t = choose|t: int| 0 <= t < f.len() && f[t] == x;
            assert(in_some_group(groups, f[t]));
            let j = choose|j: int| 0 <= j < groups.len() && groups[j].contains(f[t]);
            lemma_member_cell(cells, groups, j, x);
            assert(r[x as int] == x);
        }
        if r.contains(x) {
            assert(in_some_group(groups, x));
            let j = choose|j: int| 0 <= j < groups.len() && groups[j].contains(x);
            let t = choose|t: int| 0 <= t < groups[j].len() && groups[j][t] == x;
            assert(f.contains(groups[j][t]));
        }
    }
    f.lemma_multiset_has_no_duplicates();
    r.lemma_multiset_has_no_duplicates();
    assert forall|x: usize| f.to_multiset().count(x) == r.to_multiset().count(x) by {
        vstd::seq_lib::to_multiset_contains(f, x);
        vstd::seq_lib::to_multiset_contains(r, x);
    }
    assert(f.to_multiset() =~= r.to_multiset());
    vstd::seq_lib::to_multiset_len(f);
    vstd::seq_lib::to_multiset_len(r);
}

/// The invariant of the grouping loop after the first `n` points.
spec fn grouped_prefix(
    cells: Seq<Cell>,
    n: int,
    groups: Seq<Seq<usize>>,
    index_of: Map<u128, usize>,
) -> bool {
    &&& 0 <= n <= cells.len()
    &&& forall|j: int|
        0 <= j < groups.len() ==> #[trigger] groups[j].len() > 0 && strictly_ascending(groups[j])
    &&& forall|j: int, t: int|
        0 <= j < groups.len() && 0 <= t < groups[j].len() ==> (#[trigger] groups[j][t]) < n
            && cells[groups[j][t] as int] == group_cell(cells, groups[j])
    &&& forall|j: int, k: int|
        #![trigger groups[j], groups[k]]
        0 <= j < k < groups.len() ==> groups[j][0] < groups[k][0]
    &&& forall|j: int|
        #![trigger groups[j]]
        0 <= j < groups.len() ==> index_of.contains_key(cell_key(group_cell(cells, groups[j])) as u128)
            && index_of[cell_key(group_cell(cells, groups[j])) as u128] == j
    &&& forall|k: u128|
        #[trigger] index_of.contains_key(k) ==> index_of[k] < groups.len() && k == cell_key(
            group_cell(cells, groups[index_of[k] as int]),
        )
    &&& forall|i: usize| i < n ==> #[trigger] in_some_group(groups, i)
}

/// Sorts the points by the cell they lie in: group `j` holds, in ascending order, the points
/// of the `j`-th cell to occur in `cells`.
pub fn group_by_cell(cells: &Vec<Cell>) -> (groups: Vec<Vec<usize>>)
    ensures
        is_cell_grouping(cells@, group_views(groups@)),
        forall|j: int|
            0 <= j < groups@.len() ==> strictly_ascending(#[trigger] group_views(groups@)[j]),
        forall|j: int, k: int|
            0 <= j < k < groups@.len() ==> group_views(groups@)[j][0] < group_views(groups@)[k][0],
{
    let n = cells.len();
    let mut index_of: HashMap<u128, usize> = HashMap::new();
    let mut groups: Vec<Vec<usize>> = Vec::new();
    for i in 0..n
        invariant
            n == cells.len(),
            grouped_prefix(cells@, i as int, group_views(groups@), index_of@),
    {
        let key = cell_key_of(cells[i]);
        let ghost old_groups = group_views(groups@);
        let ghost old_index = index_of@;
        match index_of.get(&key) {
            Some(g) => {
                let g = *g;
                proof {
                    lemma_cell_key_injective(group_cell(cells@, old_groups[g as int]), cells@[i as int]);
                }
                groups[g].push(i);
                proof {
                    let gs = group_views(groups@);
                    assert(gs =~= old_groups.update(g as int, old_groups[g as int].push(i)));
                    assert forall|x: usize| x < i + 1 implies #[trigger] in_some_group(gs, x) by {
                        if x == i {
                            assert(gs[g as int][gs[g as int].len() - 1] == i);
                            assert(gs[g as int].contains(x));
                        } else {
                            assert(in_some_group(old_groups, x));
                            let j = choose|j: int| 0 <= j < old_groups.len() && old_groups[j].contains(x);
                            let t = choose|t: int| 0 <= t < old_groups[j].len() && old_groups[j][t] == x;
                            assert(gs[j][t] == x);
                            assert(gs[j].contains(x));
                        }
                    }
                    assert forall|j: int| 0 <= j < gs.len() implies #[trigger] gs[j].len() > 0
                        && strictly_ascending(gs[j]) by {
                        if j == g {
                            assert(old_groups[j][old_groups[j].len() - 1] < i);
                        }
                    }
                    assert forall|j: int| #![trigger gs[j]] 0 <= j < gs.len() implies
                        index_of@.contains_key(cell_key(group_cell(cells@, gs[j])) as u128)
                        && index_of@[cell_key(group_cell(cells@, gs[j])) as u128] == j by {
                        assert(gs[j][0] == old_groups[j][0]);
                    }
                    assert forall|k: u128| #[trigger] index_of@.contains_key(k) implies index_of@[k]
                        < gs.len() && k == cell_key(group_cell(cells@, gs[index_of@[k] as int])) by {
                        let j = index_of@[k] as int;
                        assert(gs[j][0] == old_groups[j][0]);
                    }
                    assert forall|j: int, k: int| #![trigger gs[j], gs[k]] 0 <= j < k < gs.len()
                        implies gs[j][0] < gs[k][0] by {
                        assert(gs[j][0] == old_groups[j][0]);
                        assert(gs[k][0] == old_groups[k][0]);
                    }
                }
            },
            None => {
                let gid = groups.len();
                index_of.insert(key, gid);
                let mut fresh: Vec<usize> = Vec::new();
                fresh.push(i);
                groups.push(fresh);
                proof {
                    let gs = group_views(groups@);
                    assert(gs =~= old_groups.push(seq![i]));
                    assert(!old_index.contains_key(key));
                    assert forall|x: usize| x < i + 1 implies #[trigger] in_some_group(gs, x) by {
                        if x == i {
                            assert(gs[gid as int][0] == i);
                            assert(gs[gid as int].contains(x));
                        } else {
                            assert(in_some_group(old_groups, x));
                            let j = choose|j: int| 0 <= j < old_groups.len() && old_groups[j].contains(x);
                            let t = choose|t: int| 0 <= t < old_groups[j].len() && old_groups[j][t] == x;
                            assert(gs[j][t] == x);
                            assert(gs[j].contains(x));
                        }
                    }
                    assert forall|j: int| #![trigger gs[j]] 0 <= j < gs.len() implies
                        index_of@.contains_key(cell_key(group_cell(cells@, gs[j])) as u128)
                        && index_of@[cell_key(group_cell(cells@, gs[j])) as u128] == j by {
                        if j < gid {
                            assert(gs[j] == old_groups[j]);
                            assert(cell_key(group_cell(cells@, gs[j])) as u128 != key);
                        }
                    }
                    assert forall|k: u128| #[trigger] index_of@.contains_key(k) implies index_of@[k]
                        < gs.len() && k == cell_key(group_cell(cells@, gs[index_of@[k] as int])) by {
                        if k != key {
                            assert(old_index.contains_key(k));
                        }
                    }
                    assert forall|j: int, k: int| #![trigger gs[j], gs[k]] 0 <= j < k < gs.len()
                        implies gs[j][0] < gs[k][0] by {
                        assert(gs[j] == old_groups[j]);
                        if k < gid {
                            assert(gs[k] == old_groups[k]);
                        }
                    }
                }
            },
        }
    }
    proof {
        let gs = group_views(groups@);
        assert forall|j: int| 0 <= j < gs.len() implies #[trigger] gs[j].len() > 0
            && gs[j].no_duplicates() by {
            assert(strictly_ascending(gs[j]));
        }
        assert forall|j: int, k: int|
            #![trigger gs[j], gs[k]]
            0 <= j < gs.len() && 0 <= k < gs.len() && j != k implies group_cell(cells@, gs[j])
            != group_cell(cells@, gs[k]) by {
        }
    }
    groups
}

/// Group `j` comes before group `k` when it is smaller, or as large and earlier.
pub open spec fn size_order_lt(groups: Seq<Seq<usize>>, j: usize, k: usize) -> bool {
    groups[j as int].len() < groups[k as int].len() || (groups[j as int].len()
        == groups[k as int].len() && j < k)
}

/// The sort key of group `k`: its size, then its position.
spec fn size_key(groups: Seq<Vec<usize>>, k: int) -> int {
    pack(groups[k]@.len() as int, k)
}

/// The positions of the groups, from the smallest group to the largest; groups of equal
/// size keep their order.
pub fn order_by_size(groups: &Vec<Vec<usize>>) -> (order: Vec<usize>)
    ensures
        order@.len() == groups@.len(),
        forall|t: int| 0 <= t < order@.len() ==> order@[t] < groups@.len(),
        forall|k: usize| k < groups@.len() ==> order@.contains(k),
        forall|a: int, b: int|
            0 <= a < b < order@.len() ==> size_order_lt(group_views(groups@), order@[a], order@[b]),
{
    broadcast use {vstd::seq_lib::group_to_multiset_ensures, vstd::multiset::group_multiset_axioms};

    let m = groups.len();
    let mut keys: Vec<u128> = Vec::new();
    for k in 0..m
        invariant
            m == groups.len(),
            keys@.len() == k,
            forall|t: int| 0 <= t < k ==> keys@[t] == size_key(groups@, t),
    {
        let key = pack_key(groups[k].len(), k);
        keys.push(key);
    }
    let ghost unsorted = keys@;
    proof {
        assert forall|a: int, b: int| 0 <= a < b < unsorted.len() implies unsorted[a] != unsorted[b] by {
            lemma_pack_order(groups@[a]@.len() as int, a, groups@[b]@.len() as int, b);
        }
        assert(unsorted.no_duplicates());
        unsorted.lemma_multiset_has_no_duplicates();
    }
    sort_keys(&mut keys);
    proof {
        vstd::seq_lib::to_multiset_len(keys@);
        vstd::seq_lib::to_multiset_len(unsorted);
        assert forall|x: u128| keys@.to_multiset().contains(x) implies keys@.to_multiset().count(x)
            == 1 by {
            assert(unsorted.to_multiset().contains(x));
        }
        keys@.lemma_multiset_has_no_duplicates_conv();
    }
    let mut order: Vec<usize> = Vec::new();
    for t in 0..m
        invariant
            m == groups.len(),
            keys@.len() == m,
            unsorted.len() == m,
            keys@.to_multiset() == unsorted.to_multiset(),
            forall|u: int| 0 <= u < m ==> unsorted[u] == size_key(groups@, u),
            order@.len() == t,
            forall|u: int| 0 <= u < t ==> keys@[u] == size_key(groups@, order@[u] as int),
            forall|u: int| 0 <= u < t ==> order@[u] < m,
    {
        let ghost key = keys@[t as int];
        proof {
            assert(keys@.contains(key));
            vstd::seq_lib::to_multiset_contains(keys@, key);
            vstd::seq_lib::to_multiset_contains(unsorted, key);
            assert(unsorted.contains(key));
            let k = choose|k: int| 0 <= k < unsorted.len() && unsorted[k] == key;
            assert(key == pack(groups@[k]@.len() as int, k));
            let hi: usize = groups@[k].len();
            let lo: usize = k as usize;
            assert(key == pack(hi as int, lo as int));
        }
        let (size, k) = unpack_key(keys[t]);
        proof {
            let k0 = choose|k0: int| 0 <= k0 < unsorted.len() && unsorted[k0] == key;
            lemma_pack_order(size as int, k as int, groups@[k0]@.len() as int, k0);
        }
        order.push(k);
    }
    proof {
        let gs = group_views(groups@);
        assert forall|k: usize| k < groups@.len() implies order@.contains(k) by {
            let key = unsorted[k as int];
            assert(unsorted.contains(key));
            vstd::seq_lib::to_multiset_contains(keys@, key);
            vstd::seq_lib::to_multiset_contains(unsorted, key);
            assert(keys@.contains(key));
            let t = choose|t: int| 0 <= t < keys@.len() && keys@[t] == key;
            lemma_pack_order(
                groups@[order@[t] as int]@.len() as int,
                order@[t] as int,
                groups@[k as int]@.len() as int,
                k as int,
            );
            assert(order@[t] == k);
        }
        assert forall|a: int, b: int| 0 <= a < b < order@.len() implies size_order_lt(
            gs,
            order@[a],
            order@[b],
        ) by {
            assert(keys@[a] <= keys@[b]);
            assert(keys@[a] != keys@[b]);
            lemma_pack_order(
                groups@[order@[a] as int]@.len() as int,
                order@[a] as int,
                groups@[order@[b] as int]@.len() as int,
                order@[b] as int,
            );
        }
    }
    order
}

} // verus!
