//! Integer decision logic of the occupancy field: which tiles a datapoint's
//! cone-shaped splat may touch, and how downsampling maps tile dimensions.
//! The probability arithmetic itself is floating point and lives with the
//! field's caller; everything that picks indices and reports errors is here.

use crate::AlignError;
use vstd::math::{max, min};
use vstd::prelude::*;

verus! {

/// The clipped box of tiles examined when splatting a datapoint: centered on
/// the datapoint's tile, `radius_tiles` wide on each side, and clipped to the
/// field's tile-coordinate ranges.  Each axis yields a half-open range whose
/// upper end stops one short of the field's last tile, so the box spans at
/// most `2 * radius_tiles` tiles per axis.
pub fn splat_box(center: (i64, i64), radius_tiles: i64, x_dim: (i64, i64), y_dim: (i64, i64)) -> (r:
    ((i64, i64), (i64, i64)))
    requires
        0 <= radius_tiles,
        x_dim.0 as int <= center.0 as int,
        (center.0 as int) < x_dim.1 as int,
        y_dim.0 as int <= center.1 as int,
        (center.1 as int) < y_dim.1 as int,
        i64::MIN <= center.0 as int - radius_tiles as int,
        center.0 as int + radius_tiles as int <= i64::MAX,
        i64::MIN <= center.1 as int - radius_tiles as int,
        center.1 as int + radius_tiles as int <= i64::MAX,
    ensures
        r.0.0 as int == max(center.0 as int - radius_tiles as int, x_dim.0 as int),
        r.0.1 as int == min(center.0 as int + radius_tiles as int, x_dim.1 as int - 1),
        r.1.0 as int == max(center.1 as int - radius_tiles as int, y_dim.0 as int),
        r.1.1 as int == min(center.1 as int + radius_tiles as int, y_dim.1 as int - 1),
{
    let lo_x = center.0 - radius_tiles;
    let hi_x = center.0 + radius_tiles;
    let lo_y = center.1 - radius_tiles;
    let hi_y = center.1 + radius_tiles;
    (
        (
            if lo_x < x_dim.0 {
                x_dim.0
            } else {
                lo_x
            },
            if hi_x > x_dim.1 - 1 {
                x_dim.1 - 1
            } else {
                hi_x
            },
        ),
        (
            if lo_y < y_dim.0 {
                y_dim.0
            } else {
                lo_y
            },
            if hi_y > y_dim.1 - 1 {
                y_dim.1 - 1
            } else {
                hi_y
            },
        ),
    )
}

/// Tile dimensions of a field downsampled by `factor`: each axis shrinks to
/// the number of whole `factor`-sized blocks it holds.  A zero factor is a
/// configuration error.
pub fn downsample_dims(dims: (usize, usize), factor: usize) -> (r: Result<
    (usize, usize),
    AlignError,
>)
    ensures
        r is Ok <==> factor != 0,
        r matches Err(e) ==> e == AlignError::Configuration,
        r matches Ok(d) ==> d.0 as int == dims.0 as int / factor as int && d.1 as int
            == dims.1 as int / factor as int,
{
    if factor == 0 {
        return Err(AlignError::Configuration);
    }
    Ok((dims.0 / factor, dims.1 / factor))
}

} // verus!
