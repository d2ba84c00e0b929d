use arena_bot::navigate::bfs_next_step;

#[test]
fn next_step_on_open_map() {
    assert_eq!(bfs_next_step(1, 1, 8, 8, 10, 10, &vec![]), Some((4, 4)));
}

#[test]
fn next_step_around_a_wall() {
    assert_eq!(bfs_next_step(1, 1, 8, 8, 10, 10, &vec![(4, 4)]), Some((4, 1)));
}

#[test]
fn next_step_stays_when_already_close() {
    assert_eq!(bfs_next_step(5, 5, 6, 6, 10, 10, &vec![]), Some((5, 5)));
}

#[test]
fn next_step_none_when_target_unreachable() {
    assert_eq!(bfs_next_step(1, 1, 20, 20, 5, 5, &vec![]), None);
}

#[test]
fn next_step_none_when_walled_in() {
    let walls = vec![(4, 1), (1, 4), (4, 4)];
    assert_eq!(bfs_next_step(1, 1, 8, 8, 10, 10, &walls), None);
}

#[test]
fn next_step_towards_centre() {
    assert_eq!(bfs_next_step(10, 10, 15, 15, 30, 30, &vec![]), Some((13, 13)));
}

#[test]
fn next_step_takes_the_first_of_equal_walks() {
    // Two walks of two moves reach the area: through (4, 1) and through
    // (1, 4); the first listed move goes along x, so (4, 1) is taken.
    assert_eq!(bfs_next_step(1, 1, 7, 7, 10, 10, &vec![(4, 4)]), Some((4, 1)));
}

#[test]
fn next_step_ignores_walls_outside_the_inner_area() {
    let inner = vec![(4, 4)];
    let with_border = vec![(4, 4), (0, 4), (9, 9), (1, 1), (40, -3)];
    assert_eq!(
        bfs_next_step(1, 1, 7, 7, 10, 10, &inner),
        bfs_next_step(1, 1, 7, 7, 10, 10, &with_border)
    );
    assert_eq!(bfs_next_step(1, 1, 7, 7, 10, 10, &with_border), Some((4, 1)));
}
