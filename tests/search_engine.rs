use oh_crab_planner::grid::{Cell, Direction, KnownMap};
use oh_crab_planner::problems::{PathSearch, RobotSearch};
use oh_crab_planner::search::{search, SearchError, State};
use oh_crab_planner::storage::Position;
use std::collections::VecDeque;

const ORE: usize = 3;

fn flat(rows: usize, cols: usize) -> KnownMap {
    let mut cells = Vec::new();
    for _ in 0..rows {
        let mut row = Vec::new();
        for _ in 0..cols {
            row.push(Some(Cell::new(true, 1, 0, 0, 0)));
        }
        cells.push(row);
    }
    KnownMap { cells }
}

fn wall() -> Option<Cell> {
    Some(Cell::new(false, 1, 0, 0, 0))
}

/// Applies moves and returns the end position, checking each lands on a walkable cell.
fn follow(map: &KnownMap, start: Position, moves: &[Direction]) -> Position {
    let mut p = start;
    for d in moves {
        p = map.neighbor_of(p, *d).expect("move leaves the map");
        let cell = map.cells[p.row][p.col].expect("move onto unknown cell");
        assert!(cell.walkable);
    }
    p
}

/// Shortest number of steps over walkable known cells, by breadth-first search.
fn bfs(map: &KnownMap, start: Position, target: Position) -> Option<usize> {
    let rows = map.cells.len();
    let cols = map.cells[0].len();
    let mut dist = vec![vec![usize::MAX; cols]; rows];
    let mut queue = VecDeque::new();
    dist[start.row][start.col] = 0;
    queue.push_back(start);
    while let Some(p) = queue.pop_front() {
        if p == target {
            return Some(dist[p.row][p.col]);
        }
        for d in [Direction::Up, Direction::Down, Direction::Left, Direction::Right] {
            if map.can_move_to(p, d) {
                let q = map.neighbor_of(p, d).unwrap();
                if dist[q.row][q.col] == usize::MAX {
                    dist[q.row][q.col] = dist[p.row][p.col] + 1;
                    queue.push_back(q);
                }
            }
        }
    }
    None
}

#[test]
fn goal_at_root_gives_empty_solution() {
    let mut map = flat(3, 3);
    map.cells[1][1] = Some(Cell::new(true, 1, 0, ORE, 4));
    let prob = RobotSearch::new(&map, 1, 1, ORE);
    let sol = search(&prob).unwrap();
    assert!(sol.actions.is_empty());
    assert_eq!(sol.cost, 0);
    assert_eq!(sol.state.position, Position::new(1, 1));
    assert_eq!(sol.get_action(), None);
}

#[test]
fn goal_behind_walls_has_no_solution() {
    let mut map = flat(5, 5);
    map.cells[2][2] = Some(Cell::new(true, 1, 0, ORE, 1));
    map.cells[1][2] = wall();
    map.cells[3][2] = wall();
    map.cells[2][1] = wall();
    map.cells[2][3] = None;
    let prob = RobotSearch::new(&map, 0, 0, ORE);
    assert_eq!(search(&prob).unwrap_err(), SearchError::NoSolution);
}

#[test]
fn goal_content_absent_has_no_solution() {
    let map = flat(3, 4);
    let prob = RobotSearch::new(&map, 0, 0, ORE);
    assert_eq!(search(&prob).unwrap_err(), SearchError::NoSolution);
}

#[test]
fn nearest_content_path_is_valid_and_cheapest() {
    let mut map = flat(4, 4);
    map.cells[3][3] = Some(Cell::new(true, 1, 0, ORE, 1));
    map.cells[0][2] = Some(Cell::new(true, 1, 0, ORE, 1));
    let prob = RobotSearch::new(&map, 0, 0, ORE);
    let sol = search(&prob).unwrap();
    assert_eq!(sol.cost, 2);
    assert_eq!(sol.actions, vec![Direction::Right, Direction::Right]);
    assert_eq!(follow(&map, Position::new(0, 0), &sol.actions), Position::new(0, 2));
    assert_eq!(sol.get_action(), Some(Direction::Right));
}

#[test]
fn elevation_and_step_cost_steer_the_path() {
    // A hill straight ahead costs more than the detour around it.
    let mut map = flat(3, 3);
    map.cells[0][1] = Some(Cell::new(true, 1, 5, 0, 0));
    map.cells[0][2] = Some(Cell::new(true, 1, 0, ORE, 1));
    let prob = RobotSearch::new(&map, 0, 0, ORE);
    let sol = search(&prob).unwrap();
    assert_eq!(sol.cost, 4);
    assert_eq!(sol.actions.len(), 4);
    assert_eq!(follow(&map, Position::new(0, 0), &sol.actions), Position::new(0, 2));
}

#[test]
fn tie_prefers_richer_content() {
    let mut map = flat(3, 3);
    map.cells[0][1] = Some(Cell::new(true, 1, 0, ORE, 2));
    map.cells[1][0] = Some(Cell::new(true, 1, 0, ORE, 9));
    let prob = RobotSearch::new(&map, 0, 0, ORE);
    let sol = search(&prob).unwrap();
    assert_eq!(sol.state.position, Position::new(1, 0));
    assert_eq!(sol.state.quantity, 9);
}

#[test]
fn path_search_reaches_target() {
    let mut map = flat(4, 5);
    map.cells[1][1] = wall();
    map.cells[1][2] = wall();
    map.cells[1][3] = wall();
    let prob = PathSearch::new(&map, 0, 2, 2, 2);
    let sol = search(&prob).unwrap();
    assert_eq!(follow(&map, Position::new(0, 2), &sol.actions), Position::new(2, 2));
    assert_eq!(sol.cost, 6);
}

#[test]
fn path_search_to_self_is_empty() {
    let map = flat(2, 2);
    let prob = PathSearch::new(&map, 1, 0, 1, 0);
    let sol = search(&prob).unwrap();
    assert!(sol.actions.is_empty());
    assert_eq!(sol.cost, 0);
}

#[test]
fn path_search_target_outside_map() {
    let map = flat(2, 2);
    let prob = PathSearch::new(&map, 0, 0, 5, 5);
    assert_eq!(search(&prob).unwrap_err(), SearchError::NoSolution);
}

#[test]
fn cost_matches_breadth_first_on_uniform_grids() {
    let layouts: [&[&str]; 4] = [
        &["....", "....", "....", "...."],
        &[".#..", ".#.#", ".#..", "...#"],
        &["..#...", "#.#.#.", "..#.#.", ".##.#.", "....#."],
        &[".....", "####.", ".....", ".####", "....."],
    ];
    for layout in layouts.iter() {
        let rows = layout.len();
        let cols = layout[0].len();
        let mut map = flat(rows, cols);
        for (r, line) in layout.iter().enumerate() {
            for (c, ch) in line.chars().enumerate() {
                if ch == '#' {
                    map.cells[r][c] = wall();
                }
            }
        }
        for tr in 0..rows {
            for tc in 0..cols {
                if !map.cells[tr][tc].unwrap().walkable {
                    continue;
                }
                let prob = PathSearch::new(&map, 0, 0, tr, tc);
                let expected = bfs(&map, Position::new(0, 0), Position::new(tr, tc));
                match (search(&prob), expected) {
                    (Ok(sol), Some(d)) => {
                        assert_eq!(sol.cost as usize, d);
                        assert_eq!(sol.actions.len(), d);
                        assert_eq!(follow(&map, Position::new(0, 0), &sol.actions), Position::new(tr, tc));
                    }
                    (Err(e), None) => assert_eq!(e, SearchError::NoSolution),
                    (got, want) => panic!("mismatch: {:?} vs {:?}", got.map(|s| s.cost), want),
                }
            }
        }
    }
}

#[test]
fn estimate_never_exceeds_cost_on_unit_grids() {
    // Every reachable cell: the Manhattan distance from the agent is at most the
    // cheapest path cost found to it.
    let mut map = flat(5, 5);
    map.cells[1][1] = wall();
    map.cells[2][3] = wall();
    map.cells[3][1] = Some(Cell::new(true, 4, 0, 0, 0));
    for tr in 0..5 {
        for tc in 0..5 {
            let prob = PathSearch::new(&map, 2, 2, tr, tc);
            if let Ok(sol) = search(&prob) {
                let dr = (tr as i64 - 2).abs() as u64;
                let dc = (tc as i64 - 2).abs() as u64;
                assert!(dr + dc <= sol.cost);
            }
        }
    }
}

#[test]
fn state_equality_ignores_quantity() {
    let a = State::new(Position::new(1, 2), ORE, 5);
    let b = State::new(Position::new(1, 2), ORE, 7);
    let c = State::new(Position::new(1, 2), ORE + 1, 5);
    assert!(a == b);
    assert!(a != c);
}

#[test]
fn path_cost_past_64_bits_is_reported() {
    let mut map = flat(1, 4);
    map.cells[0][1] = Some(Cell::new(true, 1, u32::MAX, 0, 0));
    map.cells[0][3] = Some(Cell::new(true, 1, u32::MAX, ORE, 1));
    let prob = RobotSearch::new(&map, 0, 0, ORE);
    assert_eq!(search(&prob).unwrap_err(), SearchError::CostOverflow);
}
