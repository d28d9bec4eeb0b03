use noob_slam::grid::RectChunkedMap;
use noob_slam::AlignError;

#[test]
fn sparse_grid_bounds() {
    // Ten cells per axis with chunk side 5 come out as two centered chunks
    // per axis, covering exactly [-5, 5) x [-5, 5).
    let mut m = RectChunkedMap::<u32, 5>::with_size_centered((10, 10));
    assert_eq!(m.x_dim(), (-5, 5));
    assert_eq!(m.y_dim(), (-5, 5));
    for ix in -5..5 {
        for iy in -5..5 {
            assert!(m.in_bounds(&(ix, iy)));
            assert_eq!(m.get(&(ix, iy)), Some(&0));
            assert!(m.get_mut(&(ix, iy)).is_some());
        }
    }
    for coord in [(-6, 0), (5, 0), (0, -6), (0, 5), (100, 100), (i64::MIN, 0)] {
        assert!(!m.in_bounds(&coord));
        assert_eq!(m.get(&coord), None);
        assert!(m.get_mut(&coord).is_none());
    }
    // set followed by get round-trips the value exactly
    assert!(m.set(&(-3, 4), 77));
    assert_eq!(m.get(&(-3, 4)), Some(&77));
    assert!(m.set(&(0, 0), 5));
    assert_eq!(m.get(&(0, 0)), Some(&5));
    // an out-of-bounds set is a no-op
    assert!(!m.set(&(5, 0), 9));
    assert_eq!(m.get(&(4, 0)), Some(&0));
}

#[test]
fn chunk_addressing_is_euclidean() {
    // Negative coordinates floor toward the negative chunk and keep a
    // non-negative intra-chunk offset.
    assert_eq!(RectChunkedMap::<u8, 5>::chunk_of((-1, -1)), (-1, -1));
    assert_eq!(RectChunkedMap::<u8, 5>::array_index_of((-1, -1)), (4, 4));
    assert_eq!(RectChunkedMap::<u8, 4>::chunk_of((7, -3)), (1, -1));
    assert_eq!(RectChunkedMap::<u8, 4>::array_index_of((7, -3)), (3, 1));
    assert_eq!(RectChunkedMap::<u8, 4>::chunk_of((0, 0)), (0, 0));
    assert_eq!(RectChunkedMap::<u8, 4>::array_index_of((0, 0)), (0, 0));
    assert_eq!(
        RectChunkedMap::<u8, 4>::to_chunked_index((-9, 11)),
        ((-3, 2), (3, 3))
    );
}

#[test]
fn with_chunks_rejects_bounds_off_zero() {
    assert_eq!(
        RectChunkedMap::<u32, 4>::with_chunks((1, 2), (0, 1)).err(),
        Some(AlignError::Configuration)
    );
    assert_eq!(
        RectChunkedMap::<u32, 4>::with_chunks((-1, 2), (0, -1)).err(),
        Some(AlignError::Configuration)
    );
    let m = RectChunkedMap::<u32, 4>::with_chunks((-1, 2), (0, 1)).unwrap();
    assert_eq!(m.x_chunks(), (-1, 2));
    assert_eq!(m.y_chunks(), (0, 1));
    assert_eq!(m.x_dim(), (-4, 8));
    assert_eq!(m.y_dim(), (0, 4));
    assert_eq!(m.dim_chunks(), (3, 1));
    assert_eq!(m.dim(), (12, 4));
    assert_eq!(m.len_chunks(), 3);
    assert_eq!(m.len(), 48);
}

#[test]
fn centered_construction_rounds_up_positive() {
    // An odd chunk count puts the extra chunk on the positive side.
    let m = RectChunkedMap::<u32, 2>::with_chunks_centered((3, 2));
    assert_eq!(m.x_chunks(), (-1, 2));
    assert_eq!(m.y_chunks(), (-1, 1));
    assert_eq!(m.x_range(), -2..4);
    assert_eq!(m.y_range(), -2..2);
}

#[test]
fn with_size_covers_the_requested_rectangle() {
    let m = RectChunkedMap::<u32, 4>::with_size((-7, 10), (0, 8)).unwrap();
    assert_eq!(m.x_chunks(), (-2, 3));
    assert_eq!(m.y_chunks(), (0, 2));
    assert_eq!(m.x_dim(), (-8, 12));
    assert_eq!(m.y_dim(), (0, 8));
    assert!(m.in_bounds(&(-7, 0)));
    assert!(m.in_bounds(&(9, 7)));
    assert!(!m.in_bounds(&(-9, 0)));
    // a lower bound above zero pushes the chunk bounds off zero
    assert_eq!(
        RectChunkedMap::<u32, 4>::with_size((5, 10), (0, 8)).err(),
        Some(AlignError::Configuration)
    );
}

#[test]
fn get_mut_writes_one_cell() {
    let mut m = RectChunkedMap::<i32, 3>::with_chunks_centered((2, 2));
    if let Some(cell) = m.get_mut(&(-2, 1)) {
        *cell = -9;
    }
    assert_eq!(m.get(&(-2, 1)), Some(&-9));
    assert_eq!(m.get(&(-2, 2)), Some(&0));
    assert_eq!(m.get(&(-1, 1)), Some(&0));
}

#[test]
fn cursor_walks_every_cell_in_order() {
    let mut m = RectChunkedMap::<u32, 2>::with_chunks_centered((1, 1));
    let coords: [(i64, i64); 4] = [(0, 0), (1, 0), (0, 1), (1, 1)];
    for (k, coord) in coords.iter().enumerate() {
        assert!(m.set(coord, 10 + k as u32));
    }
    let mut cur = m.cursor();
    let mut seen = Vec::new();
    while let Some(entry) = cur.next() {
        seen.push(entry);
    }
    assert_eq!(
        seen,
        vec![
            ((0, 0), 10),
            ((1, 0), 11),
            ((0, 1), 12),
            ((1, 1), 13),
        ]
    );
    // a fresh cursor restarts the walk from the beginning
    let mut again = m.cursor();
    assert_eq!(again.next(), Some(((0, 0), 10)));
}

#[test]
fn entries_lists_each_cell_exactly_once() {
    let mut m = RectChunkedMap::<u32, 2>::with_chunks_centered((2, 1));
    assert!(m.set(&(-2, 0), 1));
    assert!(m.set(&(1, 1), 2));
    let entries = m.entries();
    assert_eq!(entries.len(), 8);
    let mut expected = Vec::new();
    for iy in 0..2 {
        for ix in -2..2 {
            let v = if (ix, iy) == (-2, 0) {
                1
            } else if (ix, iy) == (1, 1) {
                2
            } else {
                0
            };
            expected.push(((ix, iy), v));
        }
    }
    assert_eq!(entries, expected);
}

#[test]
fn clone_and_default() {
    let mut m = RectChunkedMap::<u32, 3>::with_chunks_centered((1, 1));
    assert!(m.set(&(2, 2), 42));
    let copy = m.clone();
    assert_eq!(copy.get(&(2, 2)), Some(&42));
    assert_eq!(copy.get(&(0, 0)), Some(&0));
    assert_eq!(copy.x_chunks(), m.x_chunks());

    let empty = RectChunkedMap::<u32, 3>::default();
    assert_eq!(empty.len(), 0);
    assert_eq!(empty.get(&(0, 0)), None);
}
