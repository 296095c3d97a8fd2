use oh_crab_planner::distribution::{
    discover_targets, scan_cells, solve_packaging_problem, CellKind, DistributionError,
};
use oh_crab_planner::grid::{Cell, KnownMap};
use oh_crab_planner::storage::{Position, StorageInfo};

const ROCK: usize = 0;
const TREE: usize = 1;
const FISH: usize = 10;
const MARKET: usize = 11;
const BANK: usize = 12;
const GRASS: usize = 99;

fn cell(content: usize, quantity: usize) -> Option<Cell> {
    Some(Cell::new(true, 1, 0, content, quantity))
}

fn sample_map() -> KnownMap {
    KnownMap {
        cells: vec![
            vec![cell(TREE, 2), None, cell(MARKET, 0)],
            vec![cell(GRASS, 0), cell(ROCK, 5), cell(BANK, 0)],
            vec![cell(MARKET, 0), cell(FISH, 3), None],
        ],
    }
}

#[test]
fn targets_are_listed_row_major_with_records() {
    let map = sample_map();
    let targets = discover_targets(&map, &vec![ROCK, TREE, FISH]);
    let positions: Vec<Position> = targets.iter().map(|t| t.get_position()).collect();
    assert_eq!(positions, vec![Position::new(0, 0), Position::new(1, 1), Position::new(2, 1)]);
    assert_eq!(targets[0].get_quantity(), 2);
    assert_eq!(targets[0].get_coefficient(), 2);
    assert_eq!(targets[2].get_coefficient(), 5);
    assert_eq!(targets[1].get_content(), ROCK);
}

#[test]
fn markets_and_banks_are_found() {
    let map = sample_map();
    let desired = vec![ROCK, TREE, FISH];
    assert_eq!(
        scan_cells(&map, CellKind::Market, &desired, MARKET, BANK),
        vec![Position::new(0, 2), Position::new(2, 0)]
    );
    assert_eq!(scan_cells(&map, CellKind::Bank, &desired, MARKET, BANK), vec![Position::new(1, 2)]);
    // A wanted content is never listed as a market.
    assert_eq!(scan_cells(&map, CellKind::Market, &vec![MARKET], MARKET, BANK), Vec::<Position>::new());
}

#[test]
fn packaging_assigns_every_target_a_market() {
    let map = sample_map();
    let mut targets = discover_targets(&map, &vec![ROCK, TREE, FISH]);
    assert_eq!(solve_packaging_problem(&mut targets, 2, 17), Ok(()));
    assert_eq!(targets.len(), 3);
    assert!(targets.iter().all(|t| t.get_market_index() < 2));
    // Loads 4, 5 and 15: the best split puts the fish alone.
    let fish = targets[2].get_market_index();
    assert_ne!(targets[0].get_market_index(), fish);
    assert_ne!(targets[1].get_market_index(), fish);
}

#[test]
fn packaging_without_markets_fails() {
    let mut targets = vec![StorageInfo::new(Position::new(0, 0), ROCK, 1)];
    assert_eq!(solve_packaging_problem(&mut targets, 0, 1), Err(DistributionError::NoMarkets));
}

#[test]
fn packaging_with_oversized_load_fails() {
    let mut targets = vec![StorageInfo::new(Position::new(0, 0), FISH, u32::MAX as usize)];
    targets[0].set_market_index(4);
    assert_eq!(solve_packaging_problem(&mut targets, 2, 1), Err(DistributionError::LoadTooLarge));
    assert_eq!(targets[0].get_market_index(), 4);
}
