use maze_solver::algorithms::custom::{get_neighbor_in_direction, is_valid_path};
use maze_solver::algorithms::random::{random_walk, Walk};
use maze_solver::{
    astar_solve, bfs_solve, custom_solve, dfs_solve, dijkstra_solve, random_solve, Cell, Maze,
    Point, Solution,
};

fn pt(x: usize, y: usize) -> Point {
    Point { x, y }
}

/// Builds a maze from rows of text: `#` is a wall, anything else a path cell.
fn maze_from(rows: &[&str], start: Point, end: Point) -> Maze {
    let grid: Vec<Vec<Cell>> = rows
        .iter()
        .map(|row| {
            row.chars()
                .map(|c| if c == '#' { Cell::Wall } else { Cell::Path })
                .collect()
        })
        .collect();
    let maze = Maze {
        width: rows[0].len(),
        height: rows.len(),
        grid,
        start,
        end,
    };
    assert!(maze.is_well_formed());
    maze
}

fn open_room() -> Maze {
    maze_from(
        &["#####", "#   #", "#   #", "#   #", "#####"],
        pt(1, 1),
        pt(3, 3),
    )
}

fn cut_off() -> Maze {
    maze_from(
        &["#####", "#  ##", "#####", "### #", "#####"],
        pt(1, 1),
        pt(3, 3),
    )
}

fn single_cell() -> Maze {
    maze_from(&["###", "# #", "###"], pt(1, 1), pt(1, 1))
}

fn steps_are_neighbors(maze: &Maze, path: &[Point]) -> bool {
    path.windows(2).all(|pair| {
        maze.get_neighbors(pair[0]).contains(&pair[1])
            && maze.get_neighbors(pair[1]).contains(&pair[0])
    })
}

fn all_solvers(maze: &Maze) -> Vec<Solution> {
    vec![
        bfs_solve(maze),
        dfs_solve(maze),
        astar_solve(maze),
        dijkstra_solve(maze),
        random_solve(maze),
        custom_solve(maze),
    ]
}

#[test]
fn neighbors_come_in_fixed_order() {
    let maze = open_room();
    assert_eq!(
        maze.get_neighbors(pt(2, 2)),
        vec![pt(2, 1), pt(3, 2), pt(2, 3), pt(1, 2)]
    );
    assert_eq!(maze.get_neighbors(pt(1, 1)), vec![pt(2, 1), pt(1, 2)]);
    assert_eq!(maze.get_neighbors(pt(3, 3)), vec![pt(3, 2), pt(2, 3)]);
    assert_eq!(maze.get_neighbors(pt(2, 1)), vec![pt(3, 1), pt(2, 2), pt(1, 1)]);
    assert_eq!(maze.get_neighbors(pt(0, 0)), vec![]);
    assert_eq!(maze.get_neighbors(pt(5, 1)), vec![]);
    assert_eq!(maze.get_neighbors(pt(4, 1)), vec![pt(3, 1)]);
}

#[test]
fn is_path_checks_bounds_and_cell() {
    let maze = open_room();
    assert!(maze.is_path(pt(1, 1)));
    assert!(!maze.is_path(pt(0, 0)));
    assert!(!maze.is_path(pt(5, 1)));
    assert!(!maze.is_path(pt(1, 5)));
    assert!(!maze.is_path(pt(usize::MAX, 1)));
    assert!(is_valid_path(&maze, pt(3, 3)));
    assert!(!is_valid_path(&maze, pt(4, 3)));
}

#[test]
fn well_formedness_is_checked() {
    let mut maze = open_room();
    assert!(maze.is_well_formed());
    maze.start = pt(0, 0);
    assert!(!maze.is_well_formed());
    let mut ragged = open_room();
    ragged.grid[2].pop();
    assert!(!ragged.is_well_formed());
    let mut short = open_room();
    short.height = 6;
    assert!(!short.is_well_formed());
    let mut outside = open_room();
    outside.end = pt(7, 7);
    assert!(!outside.is_well_formed());
}

#[test]
fn directions_are_up_right_down_left() {
    let p = pt(4, 7);
    assert_eq!(get_neighbor_in_direction(p, 0), Some(pt(4, 6)));
    assert_eq!(get_neighbor_in_direction(p, 1), Some(pt(5, 7)));
    assert_eq!(get_neighbor_in_direction(p, 2), Some(pt(4, 8)));
    assert_eq!(get_neighbor_in_direction(p, 3), Some(pt(3, 7)));
    assert_eq!(get_neighbor_in_direction(p, 4), None);
    assert_eq!(
        get_neighbor_in_direction(pt(0, 0), 0),
        Some(pt(0, usize::MAX))
    );
    assert_eq!(
        get_neighbor_in_direction(pt(0, 0), 3),
        Some(pt(usize::MAX, 0))
    );
}

#[test]
fn bfs_in_an_open_room() {
    let sol = bfs_solve(&open_room());
    assert_eq!(sol.algorithm, "BFS");
    assert_eq!(
        sol.path,
        vec![pt(1, 1), pt(2, 1), pt(3, 1), pt(3, 2), pt(3, 3)]
    );
    assert_eq!(sol.path_length, 5);
    assert_eq!(sol.nodes_explored, 9);
}

#[test]
fn dfs_in_an_open_room() {
    let sol = dfs_solve(&open_room());
    assert_eq!(sol.algorithm, "DFS");
    assert_eq!(
        sol.path,
        vec![pt(1, 1), pt(1, 2), pt(1, 3), pt(2, 3), pt(3, 3)]
    );
    assert_eq!(sol.path_length, 5);
    assert_eq!(sol.nodes_explored, 5);
}

#[test]
fn astar_in_an_open_room() {
    let sol = astar_solve(&open_room());
    assert_eq!(sol.algorithm, "A*");
    assert_eq!(
        sol.path,
        vec![pt(1, 1), pt(1, 2), pt(1, 3), pt(2, 3), pt(3, 3)]
    );
    assert_eq!(sol.path_length, 5);
    assert_eq!(sol.nodes_explored, 5);
}

#[test]
fn dijkstra_in_an_open_room() {
    let sol = dijkstra_solve(&open_room());
    assert_eq!(sol.algorithm, "Dijkstra");
    assert_eq!(
        sol.path,
        vec![pt(1, 1), pt(2, 1), pt(3, 1), pt(3, 2), pt(3, 3)]
    );
    assert_eq!(sol.path_length, 5);
    assert_eq!(sol.nodes_explored, 9);
}

#[test]
fn wall_follower_in_an_open_room() {
    let sol = custom_solve(&open_room());
    assert_eq!(sol.algorithm, "Wall-Following");
    assert_eq!(
        sol.path,
        vec![pt(1, 1), pt(1, 2), pt(1, 3), pt(2, 3), pt(3, 3)]
    );
    assert_eq!(sol.path_length, 5);
    assert_eq!(sol.nodes_explored, 5);
}

#[test]
fn random_walk_in_an_open_room() {
    let maze = open_room();
    for _ in 0..50 {
        let sol = random_solve(&maze);
        assert_eq!(sol.algorithm, "Random");
        assert_eq!(sol.path[0], maze.start);
        assert_eq!(sol.path_length, sol.path.len());
        assert!(steps_are_neighbors(&maze, &sol.path));
        for (i, p) in sol.path.iter().enumerate() {
            assert!(!sol.path[..i].contains(p));
        }
        assert!(sol.nodes_explored >= sol.path_length);
        assert!(sol.nodes_explored <= 9);
    }
}

#[test]
fn no_path_when_the_end_is_cut_off() {
    let maze = cut_off();
    for sol in [
        bfs_solve(&maze),
        dfs_solve(&maze),
        astar_solve(&maze),
        dijkstra_solve(&maze),
    ] {
        assert_eq!(sol.path, vec![]);
        assert_eq!(sol.path_length, 0);
        assert_eq!(sol.nodes_explored, 2);
    }
}

#[test]
fn wall_follower_stops_at_its_budget() {
    let maze = cut_off();
    let sol = custom_solve(&maze);
    assert_eq!(sol.path[0], maze.start);
    assert_eq!(sol.path_length, 35);
    assert_eq!(sol.path.len(), 35);
    assert_eq!(sol.path[34], pt(1, 1));
    assert_eq!(sol.nodes_explored, 2);
    assert!(sol.path_length <= maze.width * maze.height * 4 + 1);
    assert!(steps_are_neighbors(&maze, &sol.path));
}

#[test]
fn random_walk_gives_up_when_stuck() {
    let maze = cut_off();
    let sol = random_solve(&maze);
    assert_eq!(sol.path, vec![]);
    assert_eq!(sol.path_length, 0);
    assert_eq!(sol.nodes_explored, 2);
    let walled_off = maze_from(
        &["#####", "# ###", "#####", "### #", "#####"],
        pt(1, 1),
        pt(3, 3),
    );
    let alone = random_solve(&walled_off);
    assert!(alone.path.is_empty());
    assert_eq!(alone.path_length, 0);
    assert_eq!(alone.nodes_explored, 1);
    let walk = random_walk(&maze);
    assert_eq!(walk.steps, 3);
    assert_eq!(walk.path, vec![pt(1, 1)]);
}

#[test]
fn random_walk_steps_back_out_of_a_dead_end() {
    let maze = maze_from(
        &["#####", "#   #", "# # #", "# # #", "#####"],
        pt(1, 1),
        pt(3, 3),
    );
    for _ in 0..40 {
        let sol = random_solve(&maze);
        assert_eq!(
            sol.path,
            vec![pt(1, 1), pt(2, 1), pt(3, 1), pt(3, 2), pt(3, 3)]
        );
        assert_eq!(sol.path_length, 5);
        assert!(sol.nodes_explored == 5 || sol.nodes_explored == 7);
    }
}

#[test]
fn start_on_the_end_is_a_single_cell_path() {
    let maze = single_cell();
    for sol in all_solvers(&maze) {
        assert_eq!(sol.path, vec![pt(1, 1)]);
        assert_eq!(sol.path_length, 1);
        assert_eq!(sol.nodes_explored, 1);
    }
}

#[test]
fn walk_steps_follow_the_picks() {
    let maze = open_room();
    let mut walk = Walk::begin(&maze);
    assert_eq!(walk.current(), pt(1, 1));
    let options = walk.choices(&maze);
    assert_eq!(options, vec![pt(2, 1), pt(1, 2)]);
    assert!(walk.step(&maze, &options, 0));
    assert_eq!(walk.path, vec![pt(1, 1), pt(2, 1)]);
    assert_eq!(walk.nodes_explored, 2);
    assert_eq!(walk.steps, 1);
    let options = walk.choices(&maze);
    assert_eq!(options, vec![pt(3, 1), pt(2, 2)]);
    assert!(walk.step(&maze, &options, 1));
    assert_eq!(walk.current(), pt(2, 2));
    let options = walk.choices(&maze);
    assert_eq!(options, vec![pt(3, 2), pt(2, 3), pt(1, 2)]);
    assert!(walk.step(&maze, &options, 2));
    let options = walk.choices(&maze);
    assert_eq!(options, vec![pt(1, 3)]);
    assert!(walk.step(&maze, &options, 0));
    let options = walk.choices(&maze);
    assert_eq!(options, vec![pt(2, 3)]);
    assert!(walk.step(&maze, &options, 0));
    let options = walk.choices(&maze);
    assert_eq!(options, vec![pt(3, 3)]);
    assert!(walk.step(&maze, &options, 0));
    assert_eq!(walk.current(), maze.end);
    assert_eq!(walk.nodes_explored, 7);
    assert_eq!(walk.steps, 6);
}

#[test]
fn walk_steps_back_from_a_dead_end() {
    let maze = cut_off();
    let mut walk = Walk::begin(&maze);
    let options = walk.choices(&maze);
    assert_eq!(options, vec![pt(2, 1)]);
    assert!(walk.step(&maze, &options, 0));
    let options = walk.choices(&maze);
    assert_eq!(options, vec![]);
    assert!(walk.step(&maze, &options, 0));
    assert_eq!(walk.path, vec![pt(1, 1)]);
    let options = walk.choices(&maze);
    assert_eq!(options, vec![]);
    assert!(!walk.step(&maze, &options, 0));
    assert_eq!(walk.path, vec![pt(1, 1)]);
    assert_eq!(walk.nodes_explored, 2);
    assert_eq!(walk.steps, 3);
}

#[test]
fn minimum_size_maze_is_solved_by_bfs() {
    let maze = Maze::new(5, 5);
    assert_eq!(maze.start, pt(1, 1));
    assert_eq!(maze.end, pt(3, 3));
    let sol = bfs_solve(&maze);
    assert!(!sol.path.is_empty());
    assert_eq!(*sol.path.last().unwrap(), pt(3, 3));
    assert!(sol.nodes_explored >= sol.path_length);
}

#[test]
fn default_size_maze_is_solved_by_all_six() {
    let maze = Maze::new(41, 21);
    for sol in all_solvers(&maze) {
        assert!(sol.path_length >= 1);
        assert!(sol.nodes_explored >= 1);
        assert_eq!(sol.path_length, sol.path.len());
        assert_eq!(sol.path[0], maze.start);
        assert_eq!(*sol.path.last().unwrap(), maze.end);
    }
}

#[test]
fn tree_searches_return_neighbor_to_neighbor_paths() {
    for _ in 0..5 {
        let maze = Maze::new(21, 15);
        for sol in [
            bfs_solve(&maze),
            dfs_solve(&maze),
            astar_solve(&maze),
            dijkstra_solve(&maze),
        ] {
            assert!(!sol.path.is_empty());
            assert!(steps_are_neighbors(&maze, &sol.path));
            for (i, p) in sol.path.iter().enumerate() {
                assert!(!sol.path[..i].contains(p));
            }
            let open = maze
                .grid
                .iter()
                .flatten()
                .filter(|cell| **cell == Cell::Path)
                .count();
            assert!(sol.nodes_explored <= open);
        }
    }
}

#[test]
fn a_search_that_fails_has_explored_all_it_can_reach() {
    let maze = maze_from(
        &["#######", "#   # #", "# # ###", "#   # #", "#######"],
        pt(1, 1),
        pt(5, 3),
    );
    for sol in [
        bfs_solve(&maze),
        dfs_solve(&maze),
        astar_solve(&maze),
        dijkstra_solve(&maze),
        random_solve(&maze),
    ] {
        assert!(sol.path.is_empty());
        assert_eq!(sol.nodes_explored, 8);
    }
}

#[test]
fn bfs_is_never_longer_than_the_others() {
    for _ in 0..5 {
        let maze = Maze::new(15, 11);
        let shortest = bfs_solve(&maze).path_length;
        assert!(shortest > 0);
        for sol in all_solvers(&maze) {
            if sol.path.last() == Some(&maze.end) {
                assert!(shortest <= sol.path_length);
            }
        }
        assert_eq!(dijkstra_solve(&maze).path_length, shortest);
    }
    let room = open_room();
    let shortest = bfs_solve(&room).path_length;
    for sol in all_solvers(&room) {
        if sol.path.last() == Some(&room.end) {
            assert!(shortest <= sol.path_length);
        }
    }
}

#[test]
fn deterministic_searches_repeat_themselves() {
    let maze = Maze::new(21, 21);
    let solvers: [fn(&Maze) -> Solution; 5] = [
        bfs_solve,
        dfs_solve,
        astar_solve,
        dijkstra_solve,
        custom_solve,
    ];
    for solve in solvers {
        let first = solve(&maze);
        let second = solve(&maze);
        assert_eq!(first.path, second.path);
        assert_eq!(first.path_length, second.path_length);
        assert_eq!(first.nodes_explored, second.nodes_explored);
    }
}

#[test]
fn walks_stay_within_their_budgets() {
    for _ in 0..5 {
        let maze = Maze::new(11, 9);
        let cells = maze.width * maze.height;
        let walk = random_walk(&maze);
        assert!(walk.steps <= cells * 10);
        assert!(walk.nodes_explored <= walk.steps + 1);
        let followed = custom_solve(&maze);
        assert!(followed.path_length <= cells * 4 + 1);
        assert!(followed.nodes_explored <= followed.path_length);
    }
}
