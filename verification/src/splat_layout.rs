use vstd::prelude::*;

verus! {

/// The number of spherical-harmonics coefficients per colour channel up to `degree`.
pub open spec fn coeffs_for_degree(degree: int) -> int {
    (degree + 1) * (degree + 1)
}

/// The number of spherical-harmonics coefficients per colour channel up to `degree`.
pub fn sh_coeffs_for_degree(degree: u32) -> (count: u32)
    requires
        coeffs_for_degree(degree as int) <= u32::MAX,
    ensures
        count == coeffs_for_degree(degree as int),
{
    assert((degree as int + 1) <= coeffs_for_degree(degree as int)) by (nonlinear_arith)
        requires
            degree >= 0,
    ;
    (degree + 1) * (degree + 1)
}

/// Squares grow with their base.
proof fn lemma_square_monotonic(a: int, b: int)
    requires
        0 <= a < b,
    ensures
        a * a < b * b,
{
    assert(a * a < b * b) by (nonlinear_arith)
        requires
            0 <= a < b,
    ;
}

/// The spherical-harmonics degree whose coefficient count per channel is `coeffs`, or
/// `None` when `coeffs` is no such count.
pub fn sh_degree_from_coeffs(coeffs: u32) -> (degree: Option<u32>)
    ensures
        match degree {
            Some(d) => coeffs_for_degree(d as int) == coeffs,
            None => forall|d: int| d >= 0 ==> coeffs_for_degree(d) != coeffs,
        },
{
    let mut d: u64 = 0;
    loop
        invariant
            d < 0x1_0000,
            forall|e: int| 0 <= e < d ==> coeffs_for_degree(e) < coeffs,
        ensures
            d < 0x1_0000,
            forall|e: int| 0 <= e < d ==> coeffs_for_degree(e) < coeffs,
            coeffs_for_degree(d as int) >= coeffs,
        decreases 0x1_0000 - d,
    {
        assert((d + 1) * (d + 1) <= 0x1_0000 * 0x1_0000) by (nonlinear_arith)
            requires
                d < 0x1_0000,
        ;
        let square = (d + 1) * (d + 1);
        if square >= coeffs as u64 {
            break;
        }
        proof {
            if d + 1 >= 0x1_0000 {
                lemma_square_monotonic(0xffff, d as int + 1);
                assert(0x1_0000 * 0x1_0000 > u32::MAX);
            }
        }
        d = d + 1;
    }
    assert((d + 1) * (d + 1) <= 0x1_0000 * 0x1_0000) by (nonlinear_arith)
        requires
            d < 0x1_0000,
    ;
    if (d + 1) * (d + 1) == coeffs as u64 {
        Some(d as u32)
    } else {
        proof {
            assert forall|e: int| e >= 0 implies coeffs_for_degree(e) != coeffs by {
                if e > d {
                    lemma_square_monotonic(d as int + 1, e + 1);
                }
            }
        }
        None
    }
}

/// The degree that a coefficient count was made for is read back from it.
pub proof fn lemma_sh_degree_round_trip(degree: int, coeffs: int)
    requires
        degree >= 0,
        coeffs == coeffs_for_degree(degree),
    ensures
        forall|d: int| d >= 0 && coeffs_for_degree(d) == coeffs ==> d == degree,
{
    assert forall|d: int| d >= 0 && coeffs_for_degree(d) == coeffs implies d == degree by {
        if d < degree {
            lemma_square_monotonic(d + 1, degree + 1);
        } else if d > degree {
            lemma_square_monotonic(degree + 1, d + 1);
        }
    }
}

/// How a buffer of spherical-harmonics coefficients changes size.
#[derive(Debug, Clone, Copy, PartialEq, Eq)]
pub enum ShResize {
    /// Append this many coefficients per channel, all zero.
    Pad(usize),
    /// Keep only this many leading coefficients per channel.
    Truncate(usize),
}

/// The number of coefficients per channel after `plan` is applied to `current` of them.
pub open spec fn resized_count(current: int, plan: ShResize) -> int {
    match plan {
        ShResize::Pad(extra) => current + extra,
        ShResize::Truncate(keep) => keep as int,
    }
}

/// How to bring a buffer with `current` coefficients per channel to the count of
/// `sh_degree`: pad it with zeros when it holds fewer, keep its leading coefficients otherwise.
pub fn sh_resize_for_degree(current: usize, sh_degree: u32) -> (plan: ShResize)
    requires
        coeffs_for_degree(sh_degree as int) <= u32::MAX,
    ensures
        current < coeffs_for_degree(sh_degree as int) ==> plan == ShResize::Pad(
            (coeffs_for_degree(sh_degree as int) - current) as usize,
        ),
        current >= coeffs_for_degree(sh_degree as int) ==> plan == ShResize::Truncate(
            coeffs_for_degree(sh_degree as int) as usize,
        ),
{
    let target = sh_coeffs_for_degree(sh_degree) as usize;
    if current < target {
        ShResize::Pad(target - current)
    } else {
        ShResize::Truncate(target)
    }
}

/// Resizing gives the coefficient count of the degree asked for, and truncation never
/// asks for more coefficients than there are.
pub proof fn lemma_resize_reaches_degree(current: usize, sh_degree: u32, plan: ShResize)
    requires
        coeffs_for_degree(sh_degree as int) <= u32::MAX,
        current < coeffs_for_degree(sh_degree as int) ==> plan == ShResize::Pad(
            (coeffs_for_degree(sh_degree as int) - current) as usize,
        ),
        current >= coeffs_for_degree(sh_degree as int) ==> plan == ShResize::Truncate(
            coeffs_for_degree(sh_degree as int) as usize,
        ),
    ensures
        resized_count(current as int, plan) == coeffs_for_degree(sh_degree as int),
        plan matches ShResize::Truncate(keep) ==> keep <= current,
{
    assert(0 <= coeffs_for_degree(sh_degree as int)) by (nonlinear_arith);
}

/// The shapes of the tensors of a splat cloud built from flat buffers.
#[derive(Debug, Clone, Copy)]
pub struct SplatShapes {
    /// The number of splats.
    pub n_splats: usize,
    /// The number of spherical-harmonics coefficients per colour channel.
    pub sh_coeffs_per_channel: usize,
}

/// The shapes for a splat cloud with `pos_len` position values (three per splat) and,
/// where given, `coeffs_len` spherical-harmonics values: the per-channel coefficient count
/// is the coefficient values per splat divided by the three channels, and one (the base
/// colour) when no coefficients are given. `None` when coefficients are given for a cloud
/// without splats, where there is no count per splat.
pub fn splat_shapes_from_raw(pos_len: usize, coeffs_len: Option<usize>) -> (shapes: Option<SplatShapes>)
    ensures
        match coeffs_len {
            Some(c) => if pos_len / 3 == 0 {
                shapes is None
            } else {
                shapes == Some(SplatShapes {
                    n_splats: pos_len / 3,
                    sh_coeffs_per_channel: (c / (pos_len / 3)) / 3,
                })
            },
            None => shapes == Some(SplatShapes { n_splats: pos_len / 3, sh_coeffs_per_channel: 1 }),
        },
{
    let n_splats = pos_len / 3;
    match coeffs_len {
        Some(c) => {
            if n_splats == 0 {
                None
            } else {
                let n_coeffs = c / n_splats;
                Some(SplatShapes { n_splats, sh_coeffs_per_channel: n_coeffs / 3 })
            }
        },
        None => Some(SplatShapes { n_splats, sh_coeffs_per_channel: 1 }),
    }
}

} // verus!
