//! Integer bookkeeping of the exhaustive correlation search: how many
//! stride-sized placements the translation scan visits, and which rotation
//! angles the rotation scan tries.  The dissimilarity scoring itself is
//! floating point and lives with the search's caller.

use crate::AlignError;
use vstd::arithmetic::div_mod::{
    lemma_div_non_zero, lemma_div_nonincreasing, lemma_fundamental_div_mod_converse_div,
};
use vstd::prelude::*;

verus! {

/// Number of stride-sized steps, per axis, that the exhaustive translation
/// scan takes over the size difference between the reference and the input;
/// the scan itself visits offsets `0 ..= steps`.  An input larger than the
/// reference on either axis is a dimension mismatch.
pub fn correlation_steps(
    input_dims: (usize, usize),
    ref_dims: (usize, usize),
    stride_tiles: usize,
) -> (r: Result<(usize, usize), AlignError>)
    requires
        1 <= stride_tiles,
    ensures
        r is Ok <==> input_dims.0 <= ref_dims.0 && input_dims.1 <= ref_dims.1,
        r matches Err(e) ==> e == AlignError::DimensionMismatch,
        r matches Ok(s) ==> s.0 as int == (ref_dims.0 as int - input_dims.0 as int)
            / stride_tiles as int && s.1 as int == (ref_dims.1 as int - input_dims.1 as int)
            / stride_tiles as int,
{
    if input_dims.0 > ref_dims.0 || input_dims.1 > ref_dims.1 {
        return Err(AlignError::DimensionMismatch);
    }
    Ok(((ref_dims.0 - input_dims.0) / stride_tiles, (ref_dims.1 - input_dims.1) / stride_tiles))
}

/// The angles, in degrees, that the exhaustive rotation scan tries: every
/// multiple of `90 / angle_divisions` degrees (integer division) from zero
/// up to, but not including, a full turn.
pub fn rotation_angles(angle_divisions: usize) -> (r: Vec<u32>)
    requires
        1 <= angle_divisions <= 90,
    ensures
        r@.len() == 359int / (90int / angle_divisions as int) + 1,
        forall|i: int|
            0 <= i < r@.len() ==> #[trigger] r@[i] as int == i * (90int / angle_divisions as int)
                && r@[i] < 360,
{
    proof {
        lemma_div_non_zero(90, angle_divisions as int);
        lemma_div_nonincreasing(90, angle_divisions as int);
    }
    let step = 90 / angle_divisions;
    proof {
        assert(0 * step as int == 0) by (nonlinear_arith);
    }
    let mut r: Vec<u32> = Vec::new();
    let mut a: usize = 0;
    while a < 360
        invariant
            step as int == 90int / angle_divisions as int,
            1 <= step <= 90,
            a as int == r@.len() * step as int,
            r@.len() == 0 || (r@.len() - 1) * step as int <= 359,
            r@.len() <= 360,
            forall|i: int|
                0 <= i < r@.len() ==> #[trigger] r@[i] as int == i * step as int && r@[i] < 360,
        decreases 450 - a,
    {
        r.push(a as u32);
        a = a + step;
        proof {
            let len = r@.len() as int;
            let s = step as int;
            assert(len * s == (len - 1) * s + s) by (nonlinear_arith);
            assert((len - 1) * s >= len - 1) by (nonlinear_arith)
                requires s >= 1 && len >= 1;
        }
    }
    proof {
        let len = r@.len() as int;
        let s = step as int;
        assert((len - 1) * s == len * s - s) by (nonlinear_arith);
        lemma_fundamental_div_mod_converse_div(359, s, len - 1, 359 - (len - 1) * s);
    }
    r
}

} // verus!
