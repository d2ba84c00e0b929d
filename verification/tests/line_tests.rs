use arena_bot::line::bresenham_line;

#[test]
fn horizontal_line() {
    assert_eq!(bresenham_line(0, 0, 3, 0), vec![(0, 0), (1, 0), (2, 0), (3, 0)]);
}

#[test]
fn single_point_line() {
    assert_eq!(bresenham_line(5, -7, 5, -7), vec![(5, -7)]);
}

#[test]
fn diagonal_line() {
    assert_eq!(bresenham_line(0, 0, 2, 2), vec![(0, 0), (1, 1), (2, 2)]);
    assert_eq!(bresenham_line(2, 2, 0, 0), vec![(2, 2), (1, 1), (0, 0)]);
}

#[test]
fn shallow_line_rounds_half_up() {
    assert_eq!(
        bresenham_line(0, 0, 10, 1),
        vec![
            (0, 0),
            (1, 0),
            (2, 0),
            (3, 0),
            (4, 0),
            (5, 1),
            (6, 1),
            (7, 1),
            (8, 1),
            (9, 1),
            (10, 1)
        ]
    );
}

#[test]
fn steep_line() {
    assert_eq!(bresenham_line(0, 0, 1, 3), vec![(0, 0), (0, 1), (1, 2), (1, 3)]);
}

#[test]
fn line_in_negative_direction() {
    assert_eq!(bresenham_line(3, 1, 0, 0), vec![(3, 1), (2, 1), (1, 0), (0, 0)]);
}

#[test]
fn line_steps_are_adjacent_and_end_at_target() {
    let pts = bresenham_line(-4, 9, 13, -2);
    assert_eq!(pts.len(), 18);
    assert_eq!(pts[0], (-4, 9));
    assert_eq!(*pts.last().unwrap(), (13, -2));
    for w in pts.windows(2) {
        let dx = (w[1].0 - w[0].0).abs();
        let dy = (w[1].1 - w[0].1).abs();
        assert!(dx <= 1 && dy <= 1 && dx + dy >= 1);
    }
}

#[test]
fn long_line_does_not_overflow() {
    let pts = bresenham_line(i32::MIN, 0, i32::MIN + 5, 0);
    assert_eq!(pts.len(), 6);
    assert_eq!(pts[5], (i32::MIN + 5, 0));
}
