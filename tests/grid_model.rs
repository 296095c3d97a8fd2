use oh_crab_planner::grid::{cell_move_cost, manhattan_distance, Cell, Direction, KnownMap};
use oh_crab_planner::storage::Position;

fn flat(rows: usize, cols: usize) -> KnownMap {
    let mut cells = Vec::new();
    for _ in 0..rows {
        let mut row = Vec::new();
        for _ in 0..cols {
            row.push(Some(Cell::new(true, 1, 0, 0, 0)));
        }
        cells.push(row);
    }
    KnownMap { cells }
}

#[test]
fn move_cost_adds_square_of_climb() {
    let low = Cell::new(true, 3, 2, 0, 0);
    let high = Cell::new(true, 5, 6, 0, 0);
    assert_eq!(cell_move_cost(&low, &high), 5 + 16);
    assert_eq!(cell_move_cost(&high, &low), 3);
    assert_eq!(cell_move_cost(&low, &low), 3);
}

#[test]
fn move_cost_largest_values_fit() {
    let low = Cell::new(true, 0, 0, 0, 0);
    let high = Cell::new(true, u32::MAX, u32::MAX, 0, 0);
    let gain = u32::MAX as u64;
    assert_eq!(cell_move_cost(&low, &high), u32::MAX as u64 + gain * gain);
}

#[test]
fn legal_moves_skip_unknown_blocked_and_outside() {
    let mut map = flat(3, 3);
    map.cells[0][1] = None;
    map.cells[1][0] = Some(Cell::new(false, 1, 0, 0, 0));
    let moves = map.legal_moves(Position::new(1, 1));
    assert_eq!(moves, vec![Direction::Down, Direction::Right]);
    let corner = map.legal_moves(Position::new(2, 2));
    assert_eq!(corner, vec![Direction::Up, Direction::Left]);
}

#[test]
fn neighbor_of_stays_inside() {
    let map = flat(2, 2);
    assert_eq!(map.neighbor_of(Position::new(0, 0), Direction::Up), None);
    assert_eq!(map.neighbor_of(Position::new(0, 0), Direction::Left), None);
    assert_eq!(map.neighbor_of(Position::new(0, 0), Direction::Down), Some(Position::new(1, 0)));
    assert_eq!(map.neighbor_of(Position::new(0, 0), Direction::Right), Some(Position::new(0, 1)));
    assert_eq!(map.neighbor_of(Position::new(1, 1), Direction::Down), None);
}

#[test]
fn direction_deltas() {
    assert_eq!((Direction::Up.dx(), Direction::Up.dy()), (-1, 0));
    assert_eq!((Direction::Down.dx(), Direction::Down.dy()), (1, 0));
    assert_eq!((Direction::Left.dx(), Direction::Left.dy()), (0, -1));
    assert_eq!((Direction::Right.dx(), Direction::Right.dy()), (0, 1));
}

#[test]
fn well_formed_rejects_ragged_rows() {
    let mut map = flat(2, 3);
    assert!(map.is_well_formed());
    map.cells[1].pop();
    assert!(!map.is_well_formed());
    assert!(KnownMap { cells: Vec::new() }.is_well_formed());
}

#[test]
fn manhattan_distance_values() {
    let map = flat(5, 7);
    assert_eq!(manhattan_distance(&map, Position::new(0, 0), Position::new(4, 6)), 10);
    assert_eq!(manhattan_distance(&map, Position::new(4, 1), Position::new(2, 5)), 6);
    assert_eq!(manhattan_distance(&map, Position::new(3, 3), Position::new(3, 3)), 0);
}

#[test]
fn move_cost_of_reads_both_cells() {
    let mut map = flat(1, 2);
    map.cells[0][0] = Some(Cell::new(true, 1, 1, 0, 0));
    map.cells[0][1] = Some(Cell::new(true, 2, 4, 0, 0));
    assert_eq!(map.move_cost_of(Position::new(0, 0), Direction::Right), 2 + 9);
    assert_eq!(map.move_cost_of(Position::new(0, 1), Direction::Left), 1);
}
