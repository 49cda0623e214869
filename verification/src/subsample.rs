use vstd::prelude::*;
use rand::rngs::ThreadRng;
use crate::order::{sort_indices, sorted_copy};
use crate::sampling::{is_density_aware_selection, select_density_aware};
use crate::voxel::Cell;

verus! {

/// The attributes of the points that a subsampling kept, each flattened point by point.
#[derive(Debug)]
pub struct SubsampledPointData<T> {
    /// Three coordinates per point.
    pub positions: Vec<T>,
    /// Three colour channels per point.
    pub colors: Option<Vec<T>>,
    /// Three scales per point.
    pub scales: Option<Vec<T>>,
    /// Four quaternion components per point.
    pub rotations: Option<Vec<T>>,
    /// One opacity per point.
    pub opacities: Option<Vec<T>>,
}

/// The contents of an optional attribute.
pub open spec fn option_view<T>(v: Option<Vec<T>>) -> Option<Seq<T>> {
    match v {
        Some(v) => Some(v@),
        None => None,
    }
}

/// The rows of `width` values that `idx` names in `data`, in the order of `idx`; an index
/// whose row does not lie wholly inside `data` is skipped.
pub open spec fn gather_rows<T>(data: Seq<T>, idx: Seq<usize>, width: nat) -> Seq<T>
    decreases idx.len(),
{
    if idx.len() == 0 {
        Seq::empty()
    } else {
        let prev = gather_rows(data, idx.drop_last(), width);
        let i = idx.last();
        if (i + 1) * width <= data.len() {
            prev + data.subrange(i * width, i * width + width)
        } else {
            prev
        }
    }
}

/// `gather_rows` of an optional attribute.
pub open spec fn gather_option<T>(data: Option<Seq<T>>, idx: Seq<usize>, width: nat) -> Option<Seq<T>> {
    match data {
        Some(d) => Some(gather_rows(d, idx, width)),
        None => None,
    }
}

/// An empty attribute where there was one, none where there was none.
pub open spec fn emptied<T>(data: Option<Seq<T>>) -> Option<Seq<T>> {
    match data {
        Some(_) => Some(Seq::empty()),
        None => None,
    }
}

/// Row `i` of `width` values lies inside `len` values exactly when `i` is below the
/// number of complete rows.
proof fn lemma_row_fits(i: int, width: int, len: int)
    requires
        width > 0,
        len >= 0,
        i >= 0,
    ensures
        (i < len / width) <==> ((i + 1) * width <= len),
{
    vstd::arithmetic::div_mod::lemma_fundamental_div_mod(len, width);
    vstd::arithmetic::div_mod::lemma_mod_pos_bound(len, width);
    let q = len / width;
    let r = len % width;
    if i < q {
        assert((i + 1) * width <= q * width) by (nonlinear_arith)
            requires
                i + 1 <= q,
                width > 0,
        ;
        assert(q * width == width * q) by (nonlinear_arith);
    } else {
        assert((i + 1) * width >= (q + 1) * width) by (nonlinear_arith)
            requires
                i >= q,
                width > 0,
        ;
        assert((q + 1) * width == width * q + width) by (nonlinear_arith);
    }
}

/// When every index names a complete row, each contributes one row.
pub proof fn lemma_gather_len<T>(data: Seq<T>, idx: Seq<usize>, width: nat)
    requires
        width > 0,
        forall|t: int| 0 <= t < idx.len() ==> (idx[t] + 1) * width <= data.len(),
    ensures
        gather_rows(data, idx, width).len() == idx.len() * width,
    decreases idx.len(),
{
    if idx.len() > 0 {
        lemma_gather_len(data, idx.drop_last(), width);
        assert(idx.len() * width == (idx.len() - 1) * width + width) by (nonlinear_arith);
        let i = idx.last();
        assert(i * width + width == (i + 1) * width) by (nonlinear_arith);
    }
}

/// Indices below `n` name complete rows of a list that holds `n` rows of `width` values.
proof fn lemma_rows_complete(idx: Seq<usize>, n: int, width: int, len: int)
    requires
        width > 0,
        n * width <= len,
        forall|t: int| 0 <= t < idx.len() ==> idx[t] < n,
    ensures
        forall|t: int| 0 <= t < idx.len() ==> (idx[t] + 1) * width <= len,
{
    assert forall|t: int| 0 <= t < idx.len() implies (idx[t] + 1) * width <= len by {
        let i = idx[t] as int;
        assert((i + 1) * width <= n * width) by (nonlinear_arith)
            requires
                i + 1 <= n,
                width > 0,
        ;
    }
}

/// Row gathering, value by value: when every index names a complete row, the result holds
/// one row per index, in the order of the indices, and value `c` of the `k`-th row is value
/// `c` of row `idx[k]` of `data`.
pub proof fn lemma_gather_rows_values<T>(data: Seq<T>, idx: Seq<usize>, width: nat)
    requires
        width > 0,
        forall|t: int| 0 <= t < idx.len() ==> (idx[t] + 1) * width <= data.len(),
    ensures
        gather_rows(data, idx, width).len() == idx.len() * width,
        forall|k: int, c: int|
            0 <= k < idx.len() && 0 <= c < width ==> #[trigger] gather_rows(data, idx, width)[k
                * width + c] == data[idx[k] * width + c],
    decreases idx.len(),
{
    lemma_gather_len(data, idx, width);
    if idx.len() > 0 {
        let prev_idx = idx.drop_last();
        lemma_gather_rows_values(data, prev_idx, width);
        let g = gather_rows(data, idx, width);
        let prev = gather_rows(data, prev_idx, width);
        let i = idx.last();
        let n = idx.len() as int;
        assert(i * width + width == (i + 1) * width) by (nonlinear_arith);
        assert(g == prev + data.subrange(i * width, i * width + width));
        assert(prev.len() == (n - 1) * width);
        assert forall|k: int, c: int| 0 <= k < idx.len() && 0 <= c < width implies #[trigger] g[k
            * width + c] == data[idx[k] * width + c] by {
            if k < n - 1 {
                assert(k * width + c < (n - 1) * width) by (nonlinear_arith)
                    requires
                        k + 1 <= n - 1,
                        0 <= c < width,
                ;
                assert(prev[k * width + c] == data[prev_idx[k] * width + c]);
                assert(prev_idx[k] == idx[k]);
            } else {
                assert(k * width == (n - 1) * width);
                assert(idx[k] == i);
            }
        }
    }
}

/// The rows of `width` values that `idx` names in `data`, in the order of `idx`, skipping
/// every index whose row does not lie wholly inside `data`.
fn rows_at<T: Copy>(data: &Vec<T>, idx: &Vec<usize>, width: usize) -> (rows: Vec<T>)
    requires
        width > 0,
    ensures
        rows@ == gather_rows(data@, idx@, width as nat),
{
    let complete = data.len() / width;
    let mut rows: Vec<T> = Vec::new();
    for t in 0..idx.len()
        invariant
            width > 0,
            complete == (data@.len() as int) / (width as int),
            rows@ == gather_rows(data@, idx@.subrange(0, t as int), width as nat),
    {
        let i = idx[t];
        let ghost prev = rows@;
        proof {
            lemma_row_fits(i as int, width as int, data@.len() as int);
            assert(idx@.subrange(0, t + 1).drop_last() =~= idx@.subrange(0, t as int));
        }
        if i < complete {
            proof {
                assert(data.len() == data@.len());
                assert((i + 1) * width <= data@.len());
                assert(i * width + width == (i + 1) * width) by (nonlinear_arith);
            }
            let base = i * width;
            for w in 0..width
                invariant
                    base + width <= data@.len(),
                    data@.len() <= usize::MAX,
                    rows@ == prev + data@.subrange(base as int, base + w),
            {
                rows.push(data[base + w]);
                proof {
                    assert(data@.subrange(base as int, base + w + 1) =~= data@.subrange(
                        base as int,
                        base + w,
                    ).push(data@[base + w]));
                }
            }
        }
    }
    assert(idx@.subrange(0, idx@.len() as int) == idx@);
    rows
}

/// `rows_at` of an optional attribute.
fn rows_at_option<T: Copy>(data: Option<Vec<T>>, idx: &Vec<usize>, width: usize) -> (rows: Option<Vec<T>>)
    requires
        width > 0,
    ensures
        option_view(rows) == gather_option(option_view(data), idx@, width as nat),
        rows is Some <==> data is Some,
        data is Some ==> rows.unwrap()@ == gather_rows(data.unwrap()@, idx@, width as nat),
{
    match data {
        Some(d) => Some(rows_at(&d, idx, width)),
        None => None,
    }
}

/// The attributes of the points that `indices` names, taken in ascending order of index
/// (each as often as it is named), from flattened attribute lists: three values per point
/// for positions, colours and scales, four for rotations, one for opacities. A point that
/// an attribute list does not hold completely is left out of that attribute.
pub fn extract_subsampled_data<T: Copy>(
    positions: &Vec<T>,
    indices: &Vec<usize>,
    colors: Option<Vec<T>>,
    scales: Option<Vec<T>>,
    rotations: Option<Vec<T>>,
    opacities: Option<Vec<T>>,
) -> (data: SubsampledPointData<T>)
    ensures
        data.positions@ == gather_rows(positions@, sorted_copy(indices@), 3),
        option_view(data.colors) == gather_option(option_view(colors), sorted_copy(indices@), 3),
        option_view(data.scales) == gather_option(option_view(scales), sorted_copy(indices@), 3),
        option_view(data.rotations) == gather_option(option_view(rotations), sorted_copy(indices@), 4),
        option_view(data.opacities) == gather_option(option_view(opacities), sorted_copy(indices@), 1),
        data.colors is Some <==> colors is Some,
        data.scales is Some <==> scales is Some,
        data.rotations is Some <==> rotations is Some,
        data.opacities is Some <==> opacities is Some,
        colors is Some ==> data.colors.unwrap()@ == gather_rows(colors.unwrap()@, sorted_copy(indices@), 3),
        scales is Some ==> data.scales.unwrap()@ == gather_rows(scales.unwrap()@, sorted_copy(indices@), 3),
        rotations is Some ==> data.rotations.unwrap()@ == gather_rows(
            rotations.unwrap()@,
            sorted_copy(indices@),
            4,
        ),
        opacities is Some ==> data.opacities.unwrap()@ == gather_rows(
            opacities.unwrap()@,
            sorted_copy(indices@),
            1,
        ),
{
    let sorted_indices = sort_indices(indices);
    let subsampled_positions = rows_at(positions, &sorted_indices, 3);
    let subsampled_colors = rows_at_option(colors, &sorted_indices, 3);
    let subsampled_scales = rows_at_option(scales, &sorted_indices, 3);
    let subsampled_rotations = rows_at_option(rotations, &sorted_indices, 4);
    let subsampled_opacities = rows_at_option(opacities, &sorted_indices, 1);
    SubsampledPointData {
        positions: subsampled_positions,
        colors: subsampled_colors,
        scales: subsampled_scales,
        rotations: subsampled_rotations,
        opacities: subsampled_opacities,
    }
}

/// Extraction depends only on which indices are named and how often, not on their order:
/// index lists that are rearrangements of each other select the same rows in the same order.
pub proof fn lemma_extract_order_independent(a: Seq<usize>, b: Seq<usize>)
    requires
        a.to_multiset() == b.to_multiset(),
    ensures
        sorted_copy(a) == sorted_copy(b),
{
}

/// `data` holds, for the points that `sel` names in ascending order, the attributes given.
pub open spec fn extracted_from<T>(
    data: SubsampledPointData<T>,
    positions: Seq<T>,
    colors: Option<Seq<T>>,
    scales: Option<Seq<T>>,
    rotations: Option<Seq<T>>,
    opacities: Option<Seq<T>>,
    sel: Seq<usize>,
) -> bool {
    &&& data.positions@ == gather_rows(positions, sorted_copy(sel), 3)
    &&& option_view(data.colors) == gather_option(colors, sorted_copy(sel), 3)
    &&& option_view(data.scales) == gather_option(scales, sorted_copy(sel), 3)
    &&& option_view(data.rotations) == gather_option(rotations, sorted_copy(sel), 4)
    &&& option_view(data.opacities) == gather_option(opacities, sorted_copy(sel), 1)
}

/// An empty attribute where there was one.
fn emptied_option<T>(data: Option<Vec<T>>) -> (out: Option<Vec<T>>)
    ensures
        option_view(out) == emptied(option_view(data)),
{
    match data {
        Some(_) => Some(Vec::new()),
        None => None,
    }
}

/// Thins a point cloud out to at most `max_count` points, keeping sparse regions.
///
/// `positions` holds three coordinates per point and `cells[i]` is the voxel of a grid over
/// the cloud's bounding box in which point `i` lies. A cloud of at most `max_count` points
/// comes back unchanged. Otherwise exactly `max_count` points are kept: the budget is shared
/// out over the voxels from the least to the most populated, each voxel taking its fair
/// share of what is left and keeping all its points where that share covers them, or a
/// random choice of them where it does not. The kept points keep their attributes and come
/// in ascending order of their index.
pub fn subsample_points_density_aware<T: Copy>(
    positions: Vec<T>,
    colors: Option<Vec<T>>,
    scales: Option<Vec<T>>,
    rotations: Option<Vec<T>>,
    opacities: Option<Vec<T>>,
    max_count: u32,
    cells: &Vec<Cell>,
    rng: &mut ThreadRng,
) -> (data: SubsampledPointData<T>)
    requires
        cells@.len() == positions@.len() / 3,
    ensures
        positions@.len() / 3 <= max_count ==> {
            &&& data.positions@ == positions@
            &&& option_view(data.colors) == option_view(colors)
            &&& option_view(data.scales) == option_view(scales)
            &&& option_view(data.rotations) == option_view(rotations)
            &&& option_view(data.opacities) == option_view(opacities)
        },
        positions@.len() / 3 > max_count && max_count == 0 ==> {
            &&& data.positions@ == Seq::<T>::empty()
            &&& option_view(data.colors) == emptied(option_view(colors))
            &&& option_view(data.scales) == emptied(option_view(scales))
            &&& option_view(data.rotations) == emptied(option_view(rotations))
            &&& option_view(data.opacities) == emptied(option_view(opacities))
        },
        positions@.len() / 3 > max_count && max_count > 0 ==> exists|sel: Seq<usize>|
            {
                &&& #[trigger] is_density_aware_selection(cells@, max_count as int, sel)
                &&& sel.len() == max_count
                &&& sel.no_duplicates()
                &&& extracted_from(
                    data,
                    positions@,
                    option_view(colors),
                    option_view(scales),
                    option_view(rotations),
                    option_view(opacities),
                    sel,
                )
            },
        positions@.len() / 3 > max_count ==> data.positions@.len() == 3 * max_count,
        data.colors is Some <==> colors is Some,
        data.scales is Some <==> scales is Some,
        data.rotations is Some <==> rotations is Some,
        data.opacities is Some <==> opacities is Some,
        positions@.len() / 3 > max_count && colors is Some && colors.unwrap()@.len() >= positions@.len()
            ==> data.colors.unwrap()@.len() == 3 * max_count,
        positions@.len() / 3 > max_count && scales is Some && scales.unwrap()@.len() >= positions@.len()
            ==> data.scales.unwrap()@.len() == 3 * max_count,
        positions@.len() / 3 > max_count && rotations is Some && rotations.unwrap()@.len() >= 4 * (
        positions@.len() / 3) ==> data.rotations.unwrap()@.len() == 4 * max_count,
        positions@.len() / 3 > max_count && opacities is Some && opacities.unwrap()@.len() >= positions@.len()
            / 3 ==> data.opacities.unwrap()@.len() == max_count,
        positions@.len() / 3 <= max_count || max_count == 0 ==> *final(rng) == *old(rng),
{
    let num_points = positions.len() / 3;
    if num_points <= max_count as usize {
        return SubsampledPointData { positions, colors, scales, rotations, opacities };
    }
    if num_points == 0 || max_count == 0 {
        return SubsampledPointData {
            positions: Vec::new(),
            colors: emptied_option(colors),
            scales: emptied_option(scales),
            rotations: emptied_option(rotations),
            opacities: emptied_option(opacities),
        };
    }
    let selected = select_density_aware(cells, max_count as usize, rng);
    let ghost pos = positions@;
    let ghost cv = option_view(colors);
    let ghost sv = option_view(scales);
    let ghost rv = option_view(rotations);
    let ghost ov = option_view(opacities);
    let data = extract_subsampled_data(&positions, &selected, colors, scales, rotations, opacities);
    proof {
        broadcast use {vstd::seq_lib::group_to_multiset_ensures, vstd::multiset::group_multiset_axioms};

        let sel = selected@;
        assert(sel.len() == max_count);
        assert(extracted_from(data, pos, cv, sv, rv, ov, sel));
        assert(is_density_aware_selection(cells@, max_count as int, sel));
        // Every kept point has a complete position, so each gives three coordinates.
        let s = sorted_copy(sel);
        crate::order::lemma_sorted_copy(sel);
        vstd::seq_lib::to_multiset_len(s);
        vstd::seq_lib::to_multiset_len(sel);
        assert forall|t: int| 0 <= t < s.len() implies (s[t] + 1) * 3 <= pos.len() by {
            assert(s.contains(s[t]));
            vstd::seq_lib::to_multiset_contains(s, s[t]);
            vstd::seq_lib::to_multiset_contains(sel, s[t]);
            let u = choose|u: int| 0 <= u < sel.len() && sel[u] == s[t];
            assert(sel[u] < num_points);
        }
        lemma_gather_len(pos, s, 3);
        assert forall|t: int| 0 <= t < s.len() implies s[t] < num_points by {
            assert(s.contains(s[t]));
            vstd::seq_lib::to_multiset_contains(s, s[t]);
            vstd::seq_lib::to_multiset_contains(sel, s[t]);
            let u = choose|u: int| 0 <= u < sel.len() && sel[u] == s[t];
        }
        if let Some(d) = cv {
            if d.len() >= pos.len() {
                lemma_rows_complete(s, num_points as int, 3, d.len() as int);
                lemma_gather_len(d, s, 3);
            }
        }
        if let Some(d) = sv {
            if d.len() >= pos.len() {
                lemma_rows_complete(s, num_points as int, 3, d.len() as int);
                lemma_gather_len(d, s, 3);
            }
        }
        if let Some(d) = rv {
            if d.len() >= 4 * num_points {
                lemma_rows_complete(s, num_points as int, 4, d.len() as int);
                lemma_gather_len(d, s, 4);
            }
        }
        if let Some(d) = ov {
            if d.len() >= num_points {
                lemma_rows_complete(s, num_points as int, 1, d.len() as int);
                lemma_gather_len(d, s, 1);
            }
        }
    }
    data
}

} // verus!
