use dsa::path_finding::{solve, Point};

#[test]
fn path_finding_it_works() {
    let maze = vec![
        "xxxxxxxxxx x",
        "x        x x",
        "x        x x",
        "x xxxxxxxx x",
        "x          x",
        "x xxxxxxxxxx",
    ];
    let maze_result = vec![
        Point { x: 10, y: 0 },
        Point { x: 10, y: 1 },
        Point { x: 10, y: 2 },
        Point { x: 10, y: 3 },
        Point { x: 10, y: 4 },
        Point { x: 9, y: 4 },
        Point { x: 8, y: 4 },
        Point { x: 7, y: 4 },
        Point { x: 6, y: 4 },
        Point { x: 5, y: 4 },
        Point { x: 4, y: 4 },
        Point { x: 3, y: 4 },
        Point { x: 2, y: 4 },
        Point { x: 1, y: 4 },
        Point { x: 1, y: 5 },
    ];
    let result = solve(maze, 'x', Point { x: 10, y: 0 }, Point { x: 1, y: 5 });
    assert_eq!(result, maze_result);
}

#[test]
fn path_finding_start_is_end() {
    let maze = vec!["x x", "x x"];
    let result = solve(maze, 'x', Point { x: 1, y: 0 }, Point { x: 1, y: 0 });
    assert_eq!(result, vec![Point { x: 1, y: 0 }]);
}

#[test]
fn path_finding_no_route() {
    let maze = vec!["x x", "xxx", "x x"];
    let result = solve(maze, 'x', Point { x: 1, y: 0 }, Point { x: 1, y: 2 });
    assert!(result.is_empty());
}
