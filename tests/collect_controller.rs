use oh_crab_planner::collect::{
    CollectCommand, CollectSession, CollectTool, HostError, HostReport, LibErrorExtended,
};
use oh_crab_planner::grid::{Cell, Direction, KnownMap};
use oh_crab_planner::storage::Position;

const ORE: usize = 3;
const NOTHING: usize = 0;

fn flat(rows: usize, cols: usize) -> KnownMap {
    let mut cells = Vec::new();
    for _ in 0..rows {
        let mut row = Vec::new();
        for _ in 0..cols {
            row.push(Some(Cell::new(true, 1, 0, NOTHING, 0)));
        }
        cells.push(row);
    }
    KnownMap { cells }
}

fn ore(quantity: usize) -> Option<Cell> {
    Some(Cell::new(true, 1, 0, ORE, quantity))
}

/// A simulated host: the whole world is known, a move costs what the map
/// says, and collecting empties the neighbouring cell.
struct Host {
    map: KnownMap,
    position: Position,
    energy: usize,
    backpack_room: usize,
    actions: usize,
    moves: usize,
}

impl Host {
    fn run(&mut self, session: &mut CollectSession) -> Result<usize, LibErrorExtended> {
        let mut report = HostReport::Started;
        loop {
            let cmd = session.step(report, Some(&self.map), self.position, self.energy);
            report = match cmd {
                CollectCommand::Finish(outcome) => return outcome,
                CollectCommand::Destroy(d) => {
                    self.actions += 1;
                    let q = self.map.neighbor_of(self.position, d).unwrap();
                    let cell = self.map.cells[q.row][q.col].unwrap();
                    if cell.quantity > self.backpack_room {
                        HostReport::DestroyFailed(HostError::NotEnoughSpace)
                    } else {
                        self.backpack_room -= cell.quantity;
                        self.map.cells[q.row][q.col] = Some(Cell::new(cell.walkable, cell.step_cost, cell.elevation, NOTHING, 0));
                        HostReport::Destroyed(cell.quantity)
                    }
                }
                CollectCommand::Go(d) => {
                    self.actions += 1;
                    let cost = self.map.move_cost_of(self.position, d) as usize;
                    if cost > self.energy {
                        HostReport::MoveFailed
                    } else {
                        self.energy -= cost;
                        self.position = self.map.neighbor_of(self.position, d).unwrap();
                        self.moves += 1;
                        HostReport::Moved
                    }
                }
            };
        }
    }
}

fn host(map: KnownMap, row: usize, col: usize, energy: usize) -> Host {
    Host { map, position: Position::new(row, col), energy, backpack_room: 100, actions: 0, moves: 0 }
}

#[test]
fn four_by_four_collects_one_in_three_steps() {
    let mut map = flat(4, 4);
    map.cells[0][3] = ore(1);
    let mut h = host(map, 0, 0, 100);
    let mut session = CollectSession::new(ORE, true, 1, 10, h.energy);
    assert_eq!(h.run(&mut session), Ok(1));
    assert_eq!(h.actions, 3);
    assert_eq!(h.moves, 2);
    assert_eq!(h.energy, 98);
}

#[test]
fn path_costing_exactly_the_budget_succeeds() {
    let mut map = flat(1, 4);
    map.cells[0][3] = ore(2);
    let mut h = host(map, 0, 0, 50);
    let mut session = CollectSession::new(ORE, true, 2, 3, h.energy);
    assert_eq!(h.run(&mut session), Ok(2));
    assert!(h.energy >= 47);
}

#[test]
fn path_costing_one_over_the_budget_fails() {
    let mut map = flat(1, 4);
    map.cells[0][3] = ore(2);
    let mut h = host(map, 0, 0, 50);
    let mut session = CollectSession::new(ORE, true, 2, 2, h.energy);
    assert_eq!(h.run(&mut session), Err(LibErrorExtended::EnergyOutOfLimit));
    assert_eq!(h.energy, 50);
    assert_eq!(h.moves, 0);
}

#[test]
fn adjacent_content_is_collected_without_moving() {
    let mut map = flat(3, 3);
    map.cells[0][1] = ore(2);
    map.cells[1][2] = ore(3);
    let mut h = host(map, 1, 1, 20);
    let mut session = CollectSession::new(ORE, true, 5, 10, h.energy);
    assert_eq!(h.run(&mut session), Ok(5));
    assert_eq!(h.moves, 0);
    assert_eq!(h.actions, 2);
}

#[test]
fn collecting_stops_when_nothing_is_left() {
    let mut map = flat(2, 3);
    map.cells[0][1] = ore(1);
    let mut h = host(map, 0, 0, 20);
    let mut session = CollectSession::new(ORE, true, 5, 10, h.energy);
    assert_eq!(h.run(&mut session), Err(LibErrorExtended::NoSolution));
    assert_eq!(session.collected, 1);
}

#[test]
fn content_that_cannot_be_destroyed_fails_at_once() {
    let mut map = flat(2, 2);
    map.cells[0][1] = ore(1);
    let mut h = host(map, 0, 0, 20);
    let mut session = CollectSession::new(ORE, false, 1, 10, h.energy);
    assert_eq!(h.run(&mut session), Err(LibErrorExtended::CommonError(HostError::CannotDestroy)));
    assert_eq!(h.actions, 0);
}

#[test]
fn full_backpack_is_reported() {
    let mut map = flat(2, 2);
    map.cells[0][1] = ore(7);
    let mut h = host(map, 0, 0, 20);
    h.backpack_room = 3;
    let mut session = CollectSession::new(ORE, true, 7, 10, h.energy);
    assert_eq!(h.run(&mut session), Err(LibErrorExtended::CommonError(HostError::NotEnoughSpace)));
}

#[test]
fn failed_move_reports_missing_energy() {
    let mut map = flat(1, 4);
    map.cells[0][3] = ore(1);
    map.cells[0][1] = Some(Cell::new(true, 1, 3, NOTHING, 0));
    // The budget allows the move, the host's energy does not.
    let mut session = CollectSession::new(ORE, true, 1, 100, 100);
    let cmd = session.step(HostReport::Started, Some(&map), Position::new(0, 0), 100);
    assert_eq!(cmd, CollectCommand::Go(Direction::Right));
    let cmd = session.step(HostReport::MoveFailed, Some(&map), Position::new(0, 0), 5);
    assert_eq!(cmd, CollectCommand::Finish(Err(LibErrorExtended::CommonError(HostError::NotEnoughEnergy))));
    // Once finished, the outcome stays.
    let again = session.step(HostReport::Moved, Some(&map), Position::new(0, 1), 5);
    assert_eq!(again, cmd);
}

#[test]
fn no_map_means_nothing_discovered() {
    let mut session = CollectSession::new(ORE, true, 1, 10, 100);
    let cmd = session.step(HostReport::Started, None, Position::new(0, 0), 100);
    assert_eq!(cmd, CollectCommand::Finish(Err(LibErrorExtended::RobotMapEmpty)));
}

#[test]
fn standing_on_content_steps_to_cheapest_neighbour() {
    let mut map = flat(3, 3);
    map.cells[1][1] = ore(4);
    map.cells[0][1] = Some(Cell::new(true, 5, 0, NOTHING, 0));
    map.cells[1][0] = Some(Cell::new(true, 2, 0, NOTHING, 0));
    map.cells[2][1] = Some(Cell::new(true, 2, 0, NOTHING, 0));
    map.cells[1][2] = Some(Cell::new(true, 3, 0, NOTHING, 0));
    let mut session = CollectSession::new(ORE, true, 4, 10, 100);
    let cmd = session.step(HostReport::Started, Some(&map), Position::new(1, 1), 100);
    assert_eq!(cmd, CollectCommand::Go(Direction::Down));
    let mut h = host(map, 1, 1, 100);
    let mut session = CollectSession::new(ORE, true, 4, 10, 100);
    assert_eq!(h.run(&mut session), Ok(4));
    assert_eq!(h.energy, 98);
}

#[test]
fn standing_on_content_with_no_walkable_neighbour() {
    let mut map = flat(2, 2);
    map.cells[0][0] = ore(1);
    map.cells[0][1] = Some(Cell::new(false, 1, 0, NOTHING, 0));
    map.cells[1][0] = None;
    let mut session = CollectSession::new(ORE, true, 1, 10, 100);
    let cmd = session.step(HostReport::Started, Some(&map), Position::new(0, 0), 100);
    assert_eq!(cmd, CollectCommand::Finish(Err(LibErrorExtended::NoWalkableTile)));
}

#[test]
fn standing_on_content_with_too_costly_neighbour() {
    let mut map = flat(1, 2);
    map.cells[0][0] = ore(1);
    map.cells[0][1] = Some(Cell::new(true, 9, 0, NOTHING, 0));
    let mut session = CollectSession::new(ORE, true, 1, 8, 100);
    let cmd = session.step(HostReport::Started, Some(&map), Position::new(0, 0), 100);
    assert_eq!(cmd, CollectCommand::Finish(Err(LibErrorExtended::EnergyOutOfLimit)));
}

#[test]
fn enough_collected_finishes_with_count() {
    let mut session = CollectSession::new(ORE, true, 2, 10, 100);
    let mut map = flat(1, 3);
    map.cells[0][1] = ore(5);
    let cmd = session.step(HostReport::Started, Some(&map), Position::new(0, 0), 100);
    assert_eq!(cmd, CollectCommand::Destroy(Direction::Right));
    map.cells[0][1] = Some(Cell::new(true, 1, 0, NOTHING, 0));
    let cmd = session.step(HostReport::Destroyed(5), Some(&map), Position::new(0, 0), 100);
    assert_eq!(cmd, CollectCommand::Finish(Ok(5)));
}

#[test]
fn budget_larger_than_energy_floors_at_zero() {
    let session = CollectSession::new(ORE, true, 1, 500, 100);
    assert_eq!(session.energy_floor, 0);
    let session = CollectSession::new(ORE, true, 1, 30, 100);
    assert_eq!(session.energy_floor, 70);
}

#[test]
fn create_direction_maps_view_cells() {
    assert_eq!(CollectTool::create_direction(0, 1), Some(Direction::Up));
    assert_eq!(CollectTool::create_direction(1, 0), Some(Direction::Left));
    assert_eq!(CollectTool::create_direction(1, 2), Some(Direction::Right));
    assert_eq!(CollectTool::create_direction(2, 1), Some(Direction::Down));
    assert_eq!(CollectTool::create_direction(1, 1), None);
    assert_eq!(CollectTool::create_direction(0, 0), None);
    assert_eq!(CollectTool::create_direction(2, 2), None);
}

#[test]
fn instantly_reachable_in_pickup_order() {
    let mut map = flat(3, 3);
    map.cells[0][1] = ore(1);
    map.cells[1][0] = ore(1);
    map.cells[1][2] = ore(1);
    map.cells[2][1] = ore(1);
    map.cells[0][0] = ore(1);
    let dirs = CollectTool::instantly_reachable(&map, Position::new(1, 1), ORE);
    assert_eq!(dirs, vec![Direction::Up, Direction::Left, Direction::Right, Direction::Down]);
    map.cells[1][0] = None;
    let dirs = CollectTool::instantly_reachable(&map, Position::new(1, 1), ORE);
    assert_eq!(dirs, vec![Direction::Up, Direction::Right, Direction::Down]);
}

#[test]
fn cheapest_walkable_around_picks_first_minimum() {
    let mut map = flat(3, 3);
    map.cells[0][1] = Some(Cell::new(true, 4, 0, NOTHING, 0));
    map.cells[2][1] = Some(Cell::new(true, 2, 0, NOTHING, 0));
    map.cells[1][0] = Some(Cell::new(true, 2, 0, NOTHING, 0));
    map.cells[1][2] = Some(Cell::new(false, 1, 0, NOTHING, 0));
    let r = CollectTool::get_cheapest_walkable_around(&map, Position::new(1, 1));
    assert_eq!(r, Some((Direction::Down, 2)));
    map.cells[1][0] = Some(Cell::new(true, 1, 2, NOTHING, 0));
    let r = CollectTool::get_cheapest_walkable_around(&map, Position::new(1, 1));
    assert_eq!(r, Some((Direction::Down, 2)));
}

#[test]
fn cheapest_walkable_around_with_none_walkable() {
    let mut map = flat(1, 2);
    map.cells[0][1] = Some(Cell::new(false, 1, 0, NOTHING, 0));
    assert_eq!(CollectTool::get_cheapest_walkable_around(&map, Position::new(0, 0)), None);
}

#[test]
fn plan_step_errors_and_moves() {
    let mut map = flat(2, 3);
    map.cells[1][2] = ore(1);
    assert_eq!(CollectTool::plan_step(None, Position::new(0, 0), ORE, 10), Err(LibErrorExtended::RobotMapEmpty));
    assert_eq!(CollectTool::plan_step(Some(&map), Position::new(0, 0), ORE + 1, 10), Err(LibErrorExtended::NoSolution));
    assert_eq!(CollectTool::plan_step(Some(&map), Position::new(0, 0), ORE, 2), Err(LibErrorExtended::EnergyOutOfLimit));
    let (d, c) = CollectTool::plan_step(Some(&map), Position::new(0, 0), ORE, 3).unwrap();
    assert!(d == Direction::Down || d == Direction::Right);
    assert_eq!(c, 1);
}

#[test]
fn return_path_to_coordinates_cases() {
    let mut map = flat(3, 3);
    map.cells[1][1] = Some(Cell::new(false, 1, 0, NOTHING, 0));
    assert_eq!(
        CollectTool::return_path_to_coordinates(None, Position::new(0, 0), Position::new(2, 2)),
        Err(LibErrorExtended::RobotMapEmpty)
    );
    let path = CollectTool::return_path_to_coordinates(Some(&map), Position::new(0, 0), Position::new(2, 2)).unwrap();
    assert_eq!(path.len(), 4);
    let mut p = Position::new(0, 0);
    for d in path {
        p = map.neighbor_of(p, d).unwrap();
        assert!(map.cells[p.row][p.col].unwrap().walkable);
    }
    assert_eq!(p, Position::new(2, 2));
    assert_eq!(
        CollectTool::return_path_to_coordinates(Some(&map), Position::new(0, 0), Position::new(1, 1)),
        Err(LibErrorExtended::NoSolution)
    );
    assert_eq!(
        CollectTool::return_path_to_coordinates(Some(&map), Position::new(2, 0), Position::new(2, 0)),
        Ok(Vec::new())
    );
}

#[test]
fn check_map_for_content_reports_solution() {
    let mut map = flat(2, 2);
    map.cells[1][1] = ore(3);
    let sol = CollectTool::check_map_for_content(Some(&map), Position::new(0, 0), ORE).unwrap();
    assert_eq!(sol.cost, 2);
    assert_eq!(sol.state.quantity, 3);
    assert!(CollectTool::check_map_for_content(None, Position::new(0, 0), ORE).is_err());
}

#[test]
fn open_grid_nearest_content_is_cheapest() {
    // Two cells hold the content: one three steps away, one four. The
    // cheaper one is found, at its breadth-first distance.
    let mut map = flat(5, 5);
    map.cells[0][3] = ore(1);
    map.cells[4][2] = ore(1);
    let sol = CollectTool::check_map_for_content(Some(&map), Position::new(1, 1), ORE).unwrap();
    assert_eq!(sol.cost, 3);
    assert_eq!(sol.state.position, Position::new(0, 3));
}
