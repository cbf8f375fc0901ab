use maze_escape::maze::{is_wall, load_maze, DEFAULT_FINISH};

fn chars(s: &str) -> Vec<char> {
    s.chars().collect()
}

fn rows(v: &[&str]) -> Vec<Vec<char>> {
    v.iter().map(|r| r.chars().collect()).collect()
}

#[test]
fn load_maze_splits_lines() {
    let (maze, _) = load_maze(&chars("+-+\n| |\n+-+\n"));
    assert_eq!(maze, rows(&["+-+", "| |", "+-+"]));
}

#[test]
fn load_maze_keeps_last_line_without_break() {
    let (maze, _) = load_maze(&chars("ab\ncd"));
    assert_eq!(maze, rows(&["ab", "cd"]));
}

#[test]
fn load_maze_strips_carriage_returns() {
    let (maze, _) = load_maze(&chars("ab\r\ncd\r\n\r\nx\r"));
    assert_eq!(maze, rows(&["ab", "cd", "", "x\r"]));
}

#[test]
fn load_maze_empty_text() {
    let (maze, finish) = load_maze(&chars(""));
    assert!(maze.is_empty());
    assert_eq!(finish, DEFAULT_FINISH);
    let (maze, _) = load_maze(&chars("\n\n"));
    assert_eq!(maze, rows(&["", ""]));
}

#[test]
fn finish_line_at_goal_center() {
    let (_, finish) = load_maze(&chars("+--+\n| g|\n+--+\n"));
    assert_eq!(finish, (250, 150));
}

#[test]
fn finish_line_at_last_goal() {
    let (_, finish) = load_maze(&chars("g  g\n g\n"));
    assert_eq!(finish, (150, 150));
    let (_, finish) = load_maze(&chars("g  g\n  \n"));
    assert_eq!(finish, (350, 50));
}

#[test]
fn finish_line_default_without_goal() {
    let (_, finish) = load_maze(&chars("+-+\n| |\n"));
    assert_eq!(finish, (1300, 1300));
}

#[test]
fn walls_and_free_cells() {
    let maze = rows(&["+-|", " g "]);
    assert!(is_wall(&maze, 0, 0));
    assert!(is_wall(&maze, 150, 99));
    assert!(is_wall(&maze, 299, 50));
    assert!(!is_wall(&maze, 50, 150));
    assert!(!is_wall(&maze, 150, 150));
    assert!(!is_wall(&maze, 299, 199));
}

#[test]
fn outside_the_maze_is_wall() {
    let maze = rows(&["  ", " "]);
    assert!(is_wall(&maze, 0, 200));
    assert!(is_wall(&maze, 200, 0));
    assert!(is_wall(&maze, 100, 100));
    assert!(!is_wall(&maze, 199, 0));
}
