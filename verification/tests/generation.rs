use maze_solver::point_set::PointSet;
use maze_solver::{Cell, Maze, Point};

fn pt(x: usize, y: usize) -> Point {
    Point { x, y }
}

fn walls(width: usize, height: usize) -> Maze {
    Maze {
        grid: vec![vec![Cell::Wall; width]; height],
        width,
        height,
        start: pt(1, 1),
        end: pt(width - 2, height - 2),
    }
}

fn open_cells(maze: &Maze) -> Vec<Point> {
    let mut cells = Vec::new();
    for y in 0..maze.height {
        for x in 0..maze.width {
            if maze.grid[y][x] == Cell::Path {
                cells.push(pt(x, y));
            }
        }
    }
    cells
}

fn reachable_from_start(maze: &Maze) -> Vec<Point> {
    let mut seen = vec![maze.start];
    let mut next = 0;
    while next < seen.len() {
        for n in maze.get_neighbors(seen[next]) {
            if !seen.contains(&n) {
                seen.push(n);
            }
        }
        next += 1;
    }
    seen
}

fn check_generated(width: usize, height: usize) {
    let maze = Maze::new(width, height);
    assert!(maze.is_well_formed());
    assert_eq!(maze.width, width);
    assert_eq!(maze.height, height);
    assert_eq!(maze.grid.len(), height);
    assert_eq!(maze.start, pt(1, 1));
    assert_eq!(maze.end, pt(width - 2, height - 2));
    assert_eq!(maze.grid[1][1], Cell::Path);
    assert_eq!(maze.grid[height - 2][width - 2], Cell::Path);
    let open = open_cells(&maze);
    let reached = reachable_from_start(&maze);
    assert_eq!(open.len(), reached.len());
    for p in &open {
        assert!(reached.contains(p));
        assert!(p.x > 0 && p.x < width - 1 && p.y > 0 && p.y < height - 1);
        assert!(p.x % 2 == 1 || p.y % 2 == 1);
    }
    let mut rooms = 0;
    for y in (1..height - 1).step_by(2) {
        for x in (1..width - 1).step_by(2) {
            assert_eq!(maze.grid[y][x], Cell::Path);
            rooms += 1;
        }
    }
    // A spanning tree over the rooms opens one wall cell per room but the first.
    assert_eq!(open.len(), 2 * rooms - 1);
}

#[test]
fn generated_mazes_are_connected_trees() {
    check_generated(5, 5);
    check_generated(7, 5);
    check_generated(5, 9);
    check_generated(21, 15);
    check_generated(41, 21);
}

#[test]
fn generation_varies_but_always_holds_its_shape() {
    for _ in 0..20 {
        check_generated(9, 9);
    }
}

#[test]
fn unvisited_neighbors_are_two_steps_away_inside_the_boundary() {
    let maze = walls(7, 7);
    let mut visited = PointSet::new(7, 7);
    assert_eq!(
        maze.get_unvisited_neighbors(pt(3, 3), &visited),
        vec![pt(3, 5), pt(5, 3), pt(3, 1), pt(1, 3)]
    );
    assert_eq!(
        maze.get_unvisited_neighbors(pt(1, 1), &visited),
        vec![pt(1, 3), pt(3, 1)]
    );
    assert_eq!(
        maze.get_unvisited_neighbors(pt(5, 5), &visited),
        vec![pt(5, 3), pt(3, 5)]
    );
    visited.insert(pt(3, 5));
    visited.insert(pt(1, 3));
    assert_eq!(
        maze.get_unvisited_neighbors(pt(3, 3), &visited),
        vec![pt(5, 3), pt(3, 1)]
    );
    assert_eq!(maze.get_unvisited_neighbors(pt(4, 4), &visited), vec![pt(4, 2), pt(2, 4)]);
}

#[test]
fn carving_opens_the_wall_between_and_the_next_room() {
    let mut maze = walls(7, 7);
    maze.open_cell(pt(1, 1));
    maze.carve_passage(pt(1, 1), pt(3, 1));
    assert_eq!(open_cells(&maze), vec![pt(1, 1), pt(2, 1), pt(3, 1)]);
    maze.carve_passage(pt(3, 1), pt(3, 3));
    assert_eq!(
        open_cells(&maze),
        vec![pt(1, 1), pt(2, 1), pt(3, 1), pt(3, 2), pt(3, 3)]
    );
    maze.carve_passage(pt(3, 3), pt(1, 3));
    assert_eq!(maze.grid[3][2], Cell::Path);
    assert_eq!(maze.grid[3][1], Cell::Path);
    assert_eq!(open_cells(&maze).len(), 7);
}

#[test]
fn carving_steps_follow_the_picks() {
    let mut maze = walls(5, 5);
    maze.open_cell(pt(1, 1));
    let mut visited = PointSet::new(5, 5);
    visited.insert(pt(1, 1));
    let mut stack = vec![pt(1, 1)];
    let options = maze.get_unvisited_neighbors(pt(1, 1), &visited);
    assert_eq!(options, vec![pt(1, 3), pt(3, 1)]);
    maze.carve_step(&mut stack, &mut visited, &options, 1);
    assert_eq!(stack, vec![pt(1, 1), pt(3, 1)]);
    assert_eq!(open_cells(&maze), vec![pt(1, 1), pt(2, 1), pt(3, 1)]);
    assert!(visited.contains(pt(3, 1)));
    let mut steps = 1;
    while !stack.is_empty() {
        let top = *stack.last().unwrap();
        let options = maze.get_unvisited_neighbors(top, &visited);
        maze.carve_step(&mut stack, &mut visited, &options, 0);
        steps += 1;
    }
    assert_eq!(steps, 7);
    assert_eq!(visited.len(), 4);
    assert_eq!(
        open_cells(&maze),
        vec![
            pt(1, 1),
            pt(2, 1),
            pt(3, 1),
            pt(3, 2),
            pt(1, 3),
            pt(2, 3),
            pt(3, 3)
        ]
    );
}

#[test]
fn carving_drops_a_room_without_unvisited_neighbours() {
    let mut maze = walls(5, 5);
    maze.open_cell(pt(1, 1));
    let mut visited = PointSet::new(5, 5);
    for p in [pt(1, 1), pt(1, 3), pt(3, 1)] {
        visited.insert(p);
    }
    let mut stack = vec![pt(1, 3), pt(1, 1)];
    let options = maze.get_unvisited_neighbors(pt(1, 1), &visited);
    assert_eq!(options, vec![]);
    maze.carve_step(&mut stack, &mut visited, &options, 0);
    assert_eq!(stack, vec![pt(1, 3)]);
    assert_eq!(open_cells(&maze), vec![pt(1, 1)]);
    assert_eq!(visited.len(), 3);
}

#[test]
fn smallest_maze_is_a_single_corridor() {
    for _ in 0..60 {
        let maze = Maze::new(5, 5);
        let open = open_cells(&maze);
        assert_eq!(open.len(), 7);
        for p in [pt(1, 1), pt(3, 1), pt(1, 3), pt(3, 3), pt(3, 2), pt(2, 3)] {
            assert!(open.contains(&p));
        }
        assert!(open.contains(&pt(2, 1)) != open.contains(&pt(1, 2)));
    }
}
