use maze_solver::menu::{
    adjust_size, select_entries, Refusal, DEFAULT_HEIGHT, DEFAULT_WIDTH, MIN_SIZE,
};
use maze_solver::point_map::PointMap;
use maze_solver::point_set::PointSet;
use maze_solver::render::Tile::{self, End, OnPath, Open, Start, Wall};
use maze_solver::search::{cost, reversed};
use maze_solver::summary::{best_path, fastest, most_efficient};
use maze_solver::{Cell, Maze, Point, Solution};

fn pt(x: usize, y: usize) -> Point {
    Point { x, y }
}

fn record(name: &str, path_length: usize, nodes_explored: usize, time_taken: u128) -> Solution {
    Solution {
        algorithm: name.to_string(),
        path: Vec::new(),
        path_length,
        nodes_explored,
        time_taken,
    }
}

#[test]
fn summary_picks_the_first_of_the_least() {
    let records = vec![
        record("a", 9, 40, 300),
        record("b", 7, 12, 500),
        record("c", 7, 12, 100),
        record("d", 8, 50, 100),
    ];
    assert_eq!(best_path(&records), Some(1));
    assert_eq!(most_efficient(&records), Some(1));
    assert_eq!(fastest(&records), Some(2));
    let one = vec![record("only", 3, 3, 3)];
    assert_eq!(best_path(&one), Some(0));
    assert_eq!(fastest(&one), Some(0));
    assert_eq!(most_efficient(&one), Some(0));
}

#[test]
fn summary_of_nothing_is_nothing() {
    let none: Vec<Solution> = Vec::new();
    assert_eq!(best_path(&none), None);
    assert_eq!(fastest(&none), None);
    assert_eq!(most_efficient(&none), None);
}

#[test]
fn sizes_are_raised_to_odd_or_refused() {
    assert_eq!(MIN_SIZE, 5);
    assert_eq!(DEFAULT_WIDTH, 41);
    assert_eq!(DEFAULT_HEIGHT, 21);
    assert_eq!(adjust_size(0), None);
    assert_eq!(adjust_size(4), None);
    assert_eq!(adjust_size(5), Some(5));
    assert_eq!(adjust_size(6), Some(7));
    assert_eq!(adjust_size(40), Some(41));
    assert_eq!(adjust_size(41), Some(41));
    assert_eq!(adjust_size(usize::MAX), Some(usize::MAX));
}

#[test]
fn selections_are_sorted_and_deduplicated() {
    assert_eq!(select_entries(&vec![3, 1, 3], 6), Ok(vec![0, 2]));
    assert_eq!(
        select_entries(&vec![6, 5, 4, 3, 2, 1], 6),
        Ok(vec![0, 1, 2, 3, 4, 5])
    );
    assert_eq!(select_entries(&vec![2], 6), Ok(vec![1]));
    assert_eq!(select_entries(&vec![], 6), Err(Refusal::Empty));
    assert_eq!(select_entries(&vec![0], 6), Err(Refusal::NotListed(0)));
    assert_eq!(select_entries(&vec![1, 7], 6), Err(Refusal::NotListed(7)));
    assert_eq!(select_entries(&vec![9, 1, 8], 6), Err(Refusal::NotListed(9)));
    assert_eq!(select_entries(&vec![1], 0), Err(Refusal::NotListed(1)));
}

#[test]
fn tiles_show_start_end_path_walls_and_open_cells() {
    let rows = ["#####", "#   #", "# # #", "#   #", "#####"];
    let grid: Vec<Vec<Cell>> = rows
        .iter()
        .map(|row| {
            row.chars()
                .map(|c| if c == '#' { Cell::Wall } else { Cell::Path })
                .collect()
        })
        .collect();
    let maze = Maze {
        grid,
        width: 5,
        height: 5,
        start: pt(1, 1),
        end: pt(3, 3),
    };
    let path = vec![pt(1, 1), pt(1, 2), pt(1, 3), pt(2, 3), pt(3, 3), pt(9, 9)];
    let tiles = maze.display_with_path(&path);
    assert_eq!(
        tiles,
        vec![
            vec![Wall, Wall, Wall, Wall, Wall],
            vec![Wall, Start, Open, Open, Wall],
            vec![Wall, OnPath, Wall, Open, Wall],
            vec![Wall, OnPath, OnPath, End, Wall],
            vec![Wall, Wall, Wall, Wall, Wall],
        ]
    );
    let bare = maze.display_with_path(&Vec::new());
    assert_eq!(bare[1][1], Start);
    assert_eq!(bare[3][3], End);
    assert_eq!(bare[3][1], Open);
    assert_eq!(bare[2][2], Wall);
}

#[test]
fn point_sets_hold_what_was_inserted() {
    let mut set = PointSet::new(4, 3);
    assert!(set.is_empty());
    assert!(set.insert(pt(3, 2)));
    assert!(set.insert(pt(0, 0)));
    assert!(!set.insert(pt(3, 2)));
    assert_eq!(set.len(), 2);
    assert!(set.contains(pt(3, 2)));
    assert!(set.contains(pt(0, 0)));
    assert!(!set.contains(pt(2, 2)));
    assert!(!set.contains(pt(4, 0)));
    assert!(!set.contains(pt(0, 3)));
    assert!(set.remove(pt(0, 0)));
    assert!(!set.remove(pt(0, 0)));
    assert!(!set.remove(pt(9, 9)));
    assert_eq!(set.len(), 1);
    assert!(!set.is_empty());
}

#[test]
fn point_maps_hold_the_last_value_stored() {
    let mut map: PointMap<usize> = PointMap::new(3, 2);
    assert_eq!(map.len(), 0);
    assert_eq!(map.get(pt(1, 1)), None);
    map.insert(pt(1, 1), 7);
    map.insert(pt(2, 0), 9);
    map.insert(pt(1, 1), 4);
    assert_eq!(map.len(), 2);
    assert_eq!(map.get(pt(1, 1)), Some(4));
    assert_eq!(map.get(pt(2, 0)), Some(9));
    assert_eq!(map.get(pt(0, 1)), None);
    assert_eq!(map.get(pt(3, 0)), None);
    assert_eq!(cost(&map, pt(2, 0)), 9);
    assert_eq!(cost(&map, pt(0, 0)), usize::MAX);
}

#[test]
fn reversed_turns_a_path_around() {
    assert_eq!(
        reversed(&vec![pt(1, 1), pt(1, 2), pt(2, 2)]),
        vec![pt(2, 2), pt(1, 2), pt(1, 1)]
    );
    assert_eq!(reversed(&Vec::new()), vec![]);
}
