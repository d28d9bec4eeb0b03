use noob_slam::search::{correlation_steps, rotation_angles};
use noob_slam::AlignError;

#[test]
fn correlation_steps_spans_the_size_difference() {
    assert_eq!(correlation_steps((10, 10), (40, 25), 5), Ok((6, 3)));
    assert_eq!(correlation_steps((10, 10), (10, 10), 1), Ok((0, 0)));
    assert_eq!(correlation_steps((7, 3), (20, 20), 4), Ok((3, 4)));
}

#[test]
fn correlation_steps_rejects_oversized_input() {
    assert_eq!(
        correlation_steps((50, 10), (40, 25), 5).err(),
        Some(AlignError::DimensionMismatch)
    );
    assert_eq!(
        correlation_steps((10, 30), (40, 25), 5).err(),
        Some(AlignError::DimensionMismatch)
    );
}

#[test]
fn rotation_angles_cover_the_turn() {
    assert_eq!(rotation_angles(1), vec![0, 90, 180, 270]);
    let thirds = rotation_angles(3);
    assert_eq!(thirds.len(), 12);
    assert_eq!(thirds[1], 30);
    assert_eq!(thirds[11], 330);
    let finest = rotation_angles(90);
    assert_eq!(finest.len(), 360);
    assert_eq!(finest[359], 359);
}
