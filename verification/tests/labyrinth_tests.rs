use arena_bot::labyrinth::{find_path, GridCell, Labyrinth, Wall};

fn cell(x: usize, y: usize) -> GridCell {
    GridCell { x, y }
}

fn wall(x: usize, y: usize) -> Wall {
    Wall { cell_type: "wall".to_string(), x, y }
}

#[test]
fn open_labyrinth_shortest_path() {
    let lab = Labyrinth { width: 3, height: 3, start: cell(0, 0), goal: cell(2, 2), grid: vec![] };
    let path = find_path(&lab).unwrap();
    assert_eq!(path, vec![cell(0, 0), cell(0, 1), cell(0, 2), cell(1, 2), cell(2, 2)]);
}

#[test]
fn walls_force_a_detour() {
    let lab = Labyrinth {
        width: 3,
        height: 3,
        start: cell(0, 0),
        goal: cell(2, 0),
        grid: vec![wall(1, 0), wall(1, 1)],
    };
    let path = find_path(&lab).unwrap();
    assert_eq!(
        path,
        vec![cell(0, 0), cell(0, 1), cell(0, 2), cell(1, 2), cell(2, 2), cell(2, 1), cell(2, 0)]
    );
}

#[test]
fn blocked_goal_gives_none() {
    let lab = Labyrinth {
        width: 3,
        height: 3,
        start: cell(0, 0),
        goal: cell(2, 2),
        grid: vec![wall(1, 0), wall(1, 1), wall(1, 2)],
    };
    assert_eq!(find_path(&lab), None);
}

#[test]
fn start_is_goal() {
    let lab = Labyrinth { width: 4, height: 2, start: cell(3, 1), goal: cell(3, 1), grid: vec![] };
    assert_eq!(find_path(&lab), Some(vec![cell(3, 1)]));
}

#[test]
fn goal_outside_grid_gives_none() {
    let lab = Labyrinth { width: 4, height: 4, start: cell(0, 0), goal: cell(9, 1), grid: vec![] };
    assert_eq!(find_path(&lab), None);
}

#[test]
fn path_never_enters_a_wall() {
    let lab = Labyrinth {
        width: 5,
        height: 5,
        start: cell(0, 0),
        goal: cell(4, 4),
        grid: vec![wall(1, 1), wall(2, 2), wall(3, 3), wall(1, 0)],
    };
    let path = find_path(&lab).unwrap();
    assert_eq!(path.len(), 9);
    for c in &path {
        assert!(!lab.grid.iter().any(|w| w.x == c.x && w.y == c.y));
    }
}

#[test]
fn of_equal_paths_the_first_move_order_wins() {
    // Both (0, 1) and (1, 0) lie on a shortest path to (1, 1); the step
    // (0, +1) is listed first.
    let lab = Labyrinth { width: 3, height: 3, start: cell(0, 0), goal: cell(1, 1), grid: vec![] };
    assert_eq!(find_path(&lab), Some(vec![cell(0, 0), cell(0, 1), cell(1, 1)]));
}
