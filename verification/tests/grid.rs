use billiard::grid::{grid_layout, row_size, MAX_BALL_COUNT};

#[test]
fn row_size_of_small_counts() {
    assert_eq!(row_size(0), 0);
    assert_eq!(row_size(1), 1);
    assert_eq!(row_size(2), 2);
    assert_eq!(row_size(4), 2);
    assert_eq!(row_size(5), 3);
    assert_eq!(row_size(9), 3);
    assert_eq!(row_size(10), 4);
}

#[test]
fn row_size_of_the_default_billiard() {
    // 64 balls are laid out on an 8 x 8 grid
    assert_eq!(row_size(64), 8);
    assert_eq!(row_size(65), 9);
}

#[test]
fn row_size_at_the_limit() {
    assert_eq!(row_size(MAX_BALL_COUNT as usize), u32::MAX);
    assert_eq!(row_size(MAX_BALL_COUNT as usize - 1), u32::MAX);
    assert_eq!(row_size(MAX_BALL_COUNT as usize + 1), u32::MAX);
    assert_eq!(row_size(usize::MAX), u32::MAX);
    assert_eq!((usize::MAX as f64).sqrt().ceil() as u32, u32::MAX);
}

#[test]
fn row_size_is_ceiling_of_float_square_root() {
    for count in 0usize..20000 {
        let expected = (count as f64).sqrt().ceil() as u32;
        assert_eq!(row_size(count), expected, "count {}", count);
    }
}

#[test]
fn grid_layout_fills_rows_in_order() {
    assert_eq!(
        grid_layout(5),
        (3, vec![(0, 0), (1, 0), (2, 0), (0, 1), (1, 1)])
    );
}

#[test]
fn grid_layout_of_no_ball() {
    assert_eq!(grid_layout(0), (0, vec![]));
}

#[test]
fn grid_layout_of_one_ball() {
    assert_eq!(grid_layout(1), (1, vec![(0, 0)]));
}

#[test]
fn grid_layout_of_a_full_square() {
    assert_eq!(grid_layout(4), (2, vec![(0, 0), (1, 0), (0, 1), (1, 1)]));
}

#[test]
fn grid_slots_are_distinct_and_inside_the_grid() {
    let count = 64;
    let (r, slots) = grid_layout(count);
    assert_eq!(r, 8);
    assert_eq!(slots.len(), count);
    for (n, &(column, row)) in slots.iter().enumerate() {
        assert!(column < r as usize && row < r as usize);
        assert_eq!((column, row), (n % r as usize, n / r as usize));
        for &other in slots[..n].iter() {
            assert_ne!(other, (column, row));
        }
    }
}
