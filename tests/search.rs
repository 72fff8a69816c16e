use maze_solver::grid::{Coordination, Maze, Tile};
use maze_solver::solver::MazeSolver;
use maze_solver::text::{directions, parse_maze_row, parse_usize, step_direction, Direction};

fn maze_of(rows: &[&str]) -> Maze {
    rows.iter()
        .map(|r| parse_maze_row(r.as_bytes(), rows[0].len()).unwrap())
        .collect()
}

fn at(x: usize, y: usize) -> Coordination {
    Coordination::new(x, y)
}

fn check_route(maze: &Maze, path: &[Coordination], start: Coordination, end: Coordination) {
    assert_eq!(path[0], start);
    assert_eq!(*path.last().unwrap(), end);
    for w in path.windows(2) {
        let dx = (w[0].x() as isize - w[1].x() as isize).abs();
        let dy = (w[0].y() as isize - w[1].y() as isize).abs();
        assert_eq!(dx + dy, 1);
    }
    for c in &path[1..] {
        assert!(maze[c.y()][c.x()] == Tile::Path);
    }
}

fn manhattan(a: Coordination, b: Coordination) -> usize {
    a.x().abs_diff(b.x()) + a.y().abs_diff(b.y())
}

#[test]
fn open_three_by_three_corner_to_corner() {
    let maze = maze_of(&["000", "000", "000"]);
    let solver = MazeSolver::new(maze.clone(), at(0, 0), at(2, 2));
    let path = solver.solution().unwrap();
    assert_eq!(path.len(), 5);
    check_route(&maze, &path, at(0, 0), at(2, 2));
}

#[test]
fn walled_middle_row_has_no_solution() {
    let maze = maze_of(&["000", "111", "000"]);
    let solver = MazeSolver::new(maze, at(0, 0), at(0, 2));
    assert_eq!(solver.solution(), Err("No solution"));
}

#[test]
fn single_cell_maze() {
    let maze = maze_of(&["0"]);
    let solver = MazeSolver::new(maze, at(0, 0), at(0, 0));
    assert_eq!(solver.solution(), Ok(vec![at(0, 0)]));
}

#[test]
fn start_equal_to_goal_gives_one_cell() {
    let maze = maze_of(&["0000", "0110", "0000"]);
    let solver = MazeSolver::new(maze, at(3, 1), at(3, 1));
    assert_eq!(solver.solution(), Ok(vec![at(3, 1)]));
}

#[test]
fn open_mazes_give_manhattan_length() {
    let cases = [
        (&["000", "000", "000"][..], at(0, 0), at(2, 2)),
        (&["0000", "0000", "0000"][..], at(3, 0), at(0, 2)),
        (&["00000", "00000", "00000", "00000", "00000"][..], at(4, 4), at(0, 0)),
        (&["00000", "00000", "00000", "00000", "00000"][..], at(0, 4), at(4, 0)),
        (&["00000", "00000", "00000", "00000", "00000"][..], at(2, 2), at(0, 3)),
        (&["000000"][..], at(5, 0), at(1, 0)),
        (&["0", "0", "0", "0"][..], at(0, 0), at(0, 3)),
    ];
    for (rows, start, end) in cases {
        let maze = maze_of(rows);
        let path = MazeSolver::new(maze.clone(), start, end).solution().unwrap();
        check_route(&maze, &path, start, end);
        assert_eq!(path.len() - 1, manhattan(start, end));
    }
}

#[test]
fn enclosed_goal_has_no_solution() {
    let maze = maze_of(&["00000", "00100", "01010", "00100", "00000"]);
    let solver = MazeSolver::new(maze, at(0, 0), at(2, 2));
    assert_eq!(solver.solution(), Err("No solution"));
}

#[test]
fn wall_goal_has_no_solution() {
    let maze = maze_of(&["000", "001"]);
    let solver = MazeSolver::new(maze, at(0, 0), at(2, 1));
    assert_eq!(solver.solution(), Err("No solution"));
}

#[test]
fn route_around_walls_is_valid() {
    let maze = maze_of(&["00000", "11110", "00000", "01111", "00000"]);
    let solver = MazeSolver::new(maze.clone(), at(0, 0), at(4, 4));
    let path = solver.solution().unwrap();
    check_route(&maze, &path, at(0, 0), at(4, 4));
    assert_eq!(path.len(), 17);
}

#[test]
fn solving_twice_gives_the_same_result() {
    let maze = maze_of(&["0000", "0100", "0001", "1000"]);
    let solver = MazeSolver::new(maze, at(0, 0), at(3, 3));
    let first = solver.solution();
    let second = solver.solution();
    assert!(first.is_ok());
    assert_eq!(first, second);
}

#[test]
fn coordinate_getters() {
    let c = Coordination::new(7, 3);
    assert_eq!(c.x(), 7);
    assert_eq!(c.y(), 3);
}

#[test]
fn rows_are_decoded() {
    assert_eq!(
        parse_maze_row(b"0110", 4),
        Some(vec![Tile::Path, Tile::Wall, Tile::Wall, Tile::Path])
    );
    assert_eq!(parse_maze_row(b"", 0), Some(vec![]));
}

#[test]
fn rows_of_wrong_length_are_refused() {
    assert_eq!(parse_maze_row(b"010", 4), None);
    assert_eq!(parse_maze_row(b"01010", 4), None);
}

#[test]
fn rows_with_other_characters_are_refused() {
    assert_eq!(parse_maze_row(b"0x10", 4), None);
    assert_eq!(parse_maze_row(b"0 10", 4), None);
}

#[test]
fn single_steps_are_named() {
    assert_eq!(step_direction(at(1, 1), at(0, 1)), Some(Direction::Left));
    assert_eq!(step_direction(at(1, 1), at(1, 0)), Some(Direction::Up));
    assert_eq!(step_direction(at(1, 1), at(2, 1)), Some(Direction::Right));
    assert_eq!(step_direction(at(1, 1), at(1, 2)), Some(Direction::Down));
    assert_eq!(step_direction(at(1, 1), at(1, 1)), None);
    assert_eq!(step_direction(at(1, 1), at(3, 1)), None);
    assert_eq!(step_direction(at(1, 1), at(2, 2)), Some(Direction::Right));
}

#[test]
fn labels_are_words() {
    assert_eq!(Direction::Left.label(), "left");
    assert_eq!(Direction::Up.label(), "up");
    assert_eq!(Direction::Right.label(), "right");
    assert_eq!(Direction::Down.label(), "down");
}

#[test]
fn route_becomes_moves() {
    let path = vec![at(0, 0), at(1, 0), at(1, 1), at(0, 1), at(0, 0)];
    assert_eq!(
        directions(&path),
        Some(vec![Direction::Right, Direction::Down, Direction::Left, Direction::Up])
    );
    assert_eq!(directions(&vec![at(2, 2)]), Some(vec![]));
    assert_eq!(directions(&vec![]), Some(vec![]));
    assert_eq!(directions(&vec![at(0, 0), at(2, 0)]), None);
}

#[test]
fn solved_route_becomes_moves() {
    let maze = maze_of(&["01", "00"]);
    let path = MazeSolver::new(maze, at(0, 0), at(1, 1)).solution().unwrap();
    assert_eq!(path, vec![at(0, 0), at(0, 1), at(1, 1)]);
    let words: Vec<&str> = directions(&path).unwrap().iter().map(|d| d.label()).collect();
    assert_eq!(words, vec!["down", "right"]);
}

#[test]
fn numbers_are_read() {
    assert_eq!(parse_usize(b"0"), Some(0));
    assert_eq!(parse_usize(b"42"), Some(42));
    assert_eq!(parse_usize(b"007"), Some(7));
    assert_eq!(parse_usize(b"18446744073709551615"), Some(usize::MAX));
}

#[test]
fn bad_numbers_are_refused() {
    assert_eq!(parse_usize(b""), None);
    assert_eq!(parse_usize(b"4x"), None);
    assert_eq!(parse_usize(b"-1"), None);
    assert_eq!(parse_usize(b"18446744073709551616"), None);
    assert_eq!(parse_usize(b"99999999999999999999"), None);
}

#[test]
fn numbers_with_plus_sign_are_read() {
    assert_eq!(parse_usize(b"+7"), Some(7));
    assert_eq!(parse_usize(b"+0"), Some(0));
    assert_eq!(parse_usize(b"+18446744073709551615"), Some(usize::MAX));
}

#[test]
fn bare_or_doubled_signs_are_refused() {
    assert_eq!(parse_usize(b"+"), None);
    assert_eq!(parse_usize(b"++1"), None);
    assert_eq!(parse_usize(b"1+"), None);
    assert_eq!(parse_usize(b"+18446744073709551616"), None);
}

#[test]
fn equal_cost_routes_follow_neighbour_order() {
    let maze = maze_of(&["00", "00"]);
    let path = MazeSolver::new(maze, at(0, 0), at(1, 1)).solution().unwrap();
    assert_eq!(path, vec![at(0, 0), at(0, 1), at(1, 1)]);
}
