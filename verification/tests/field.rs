use noob_slam::field::{downsample_dims, splat_box};
use noob_slam::AlignError;

#[test]
fn splat_box_inside_the_field() {
    // A splat well inside the field keeps its full 2-radius box, with the
    // upper bound stopping one short of the field's edge coordinate.
    let b = splat_box((0, 0), 2, (-4, 4), (-4, 4));
    assert_eq!(b, ((-2, 2), (-2, 2)));
}

#[test]
fn splat_box_clips_to_the_field() {
    let b = splat_box((-3, 3), 2, (-4, 4), (-4, 4));
    assert_eq!(b.0, (-4, -1));
    assert_eq!(b.1, (1, 3));
    // a zero radius collapses the box to the center tile
    let z = splat_box((1, -1), 0, (-4, 4), (-4, 4));
    assert_eq!(z, ((1, 1), (-1, -1)));
}

#[test]
fn downsample_dims_checks_the_factor() {
    assert_eq!(
        downsample_dims((10, 7), 0).err(),
        Some(AlignError::Configuration)
    );
    assert_eq!(downsample_dims((10, 7), 1), Ok((10, 7)));
    assert_eq!(downsample_dims((10, 7), 2), Ok((5, 3)));
    assert_eq!(downsample_dims((10, 7), 4), Ok((2, 1)));
}
