//! Decisions of the collection controller: what to pick up from where the
//! agent stands, where to step next, and how to reach a given cell.
use vstd::prelude::*;
use crate::grid::{all_directions, manhattan, Direction, KnownMap};
use crate::problems::{
    lemma_path_search_consistent, lemma_path_search_no_overflow, lemma_robot_search_consistent,
    lemma_estimate_admissible, lemma_robot_search_no_overflow, min_step_one, modest_costs,
    state_at, PathSearch, RobotSearch,
};
use crate::search::{
    cost_overflows, goal_reachable, search, walk_cost, walk_end, walk_valid,
    lemma_first_move, lemma_walk_end_valid, HeuristicProblem, Solution, solves,
};
use crate::storage::Position;

verus! {

/// A failure that the host reports for one of its primitives.
#[derive(Debug, Clone, Copy, PartialEq, Eq, Structural)]
pub enum HostError {
    NotEnoughEnergy,
    NotEnoughSpace,
    CannotDestroy,
}

/// Why a collection or path request could not go on.
#[derive(Debug, Clone, Copy, PartialEq, Eq, Structural)]
pub enum LibErrorExtended {
    /// A host failure, passed on.
    CommonError(HostError),
    /// The known map holds no path to what was asked for.
    NoSolution,
    /// Nothing has been discovered yet.
    RobotMapEmpty,
    /// The agent must step aside but no neighbouring cell is walkable.
    NoWalkableTile,
    /// The next move or plan costs more than the energy left to spend.
    EnergyOutOfLimit,
}

/// The order in which the four neighbours are checked for pickup.
pub open spec fn pickup_order() -> Seq<Direction> {
    seq![Direction::Up, Direction::Left, Direction::Right, Direction::Down]
}

/// The neighbour of `p` in direction `d` is discovered and holds `content`.
pub open spec fn holds_content(map: &KnownMap, p: Position, d: Direction, content: usize) -> bool {
    &&& map.neighbor(p, d) is Some
    &&& map.known(map.neighbor(p, d)->Some_0)
    &&& map.known_cell(map.neighbor(p, d)->Some_0).content == content
}

/// The neighbours of `p` holding `content`, in pickup order.
pub open spec fn adjacent_targets(map: &KnownMap, p: Position, content: usize) -> Seq<Direction> {
    pickup_order().filter(|d: Direction| holds_content(map, p, d, content))
}

/// The place of a move in the order Up, Down, Left, Right.
pub open spec fn dir_rank(d: Direction) -> int {
    match d {
        Direction::Up => 0,
        Direction::Down => 1,
        Direction::Left => 2,
        Direction::Right => 3,
    }
}

/// `(d, c)` is the cheapest move from `p` onto a walkable neighbour, with its
/// cost, the earliest in the order Up, Down, Left, Right among equals.
pub open spec fn cheapest_move(map: &KnownMap, p: Position, d: Direction, c: u64) -> bool {
    &&& map.can_move(p, d)
    &&& c == map.step_cost(p, d)
    &&& forall|e: Direction| #[trigger] map.can_move(p, e) ==> c <= map.step_cost(p, e)
    &&& forall|e: Direction|
        #[trigger] map.can_move(p, e) && dir_rank(e) < dir_rank(d) ==> c < map.step_cost(p, e)
}

/// The search for `content` from `p` on `map`.
pub open spec fn content_problem<'a>(map: &'a KnownMap, p: Position, content: usize) -> RobotSearch<'a> {
    RobotSearch { known_world: map, robot_position: p, goal_state_type: content }
}

/// The search for the cell `target` from `p` on `map`.
pub open spec fn path_problem<'a>(map: &'a KnownMap, p: Position, target: Position) -> PathSearch<'a> {
    PathSearch { known_world: map, robot_position: p, target }
}

/// `w` leads from the agent to the content, and no walk there has a smaller
/// cost plus estimate at its end.
pub open spec fn best_goal_walk(prob: &RobotSearch, w: Seq<Direction>) -> bool {
    &&& walk_valid(prob, prob.init(), w)
    &&& prob.goal(walk_end(prob, prob.init(), w))
    &&& forall|v: Seq<Direction>|
        walk_valid(prob, prob.init(), v) && prob.goal(walk_end(prob, prob.init(), v)) ==> walk_cost(
            prob,
            prob.init(),
            w,
        ) + prob.estimate_of(walk_end(prob, prob.init(), w)) <= #[trigger] walk_cost(
            prob,
            prob.init(),
            v,
        ) + prob.estimate_of(walk_end(prob, prob.init(), v))
}

/// What `CollectTool::plan_step` may answer for these arguments.
///
/// Away from the content the move is the first of a path to it that the
/// search found, which must fit in `remaining` as a whole; when every step
/// costs at least one that path is best in cost plus estimate. Standing on
/// the content the move is the cheapest step onto a walkable neighbour, which
/// must fit.
pub open spec fn plan_outcome(
    map: Option<&KnownMap>,
    position: Position,
    content: usize,
    remaining: u64,
    r: Result<(Direction, u64), LibErrorExtended>,
) -> bool {
    &&& map is None <==> r == Err::<(Direction, u64), LibErrorExtended>(
        LibErrorExtended::RobotMapEmpty,
    )
    &&& map matches Some(m) ==> {
        let prob = content_problem(m, position, content);
        let here = m.known_cell(position).content == content;
        &&& r matches Ok((d, c)) ==> m.can_move(position, d) && c == m.step_cost(position, d) && c
            <= remaining
        &&& r matches Ok((d, c)) ==> (!here ==> exists|w: Seq<Direction>|
            walk_valid(&prob, prob.init(), w) && prob.goal(walk_end(&prob, prob.init(), w))
                && #[trigger] walk_cost(&prob, prob.init(), w) <= remaining && w.len() > 0 && w[0]
                == d && (min_step_one(m) ==> best_goal_walk(&prob, w)))
        &&& r matches Ok((d, c)) ==> (here ==> cheapest_move(m, position, d, c))
        &&& here ==> (r == Err::<(Direction, u64), LibErrorExtended>(
            LibErrorExtended::NoWalkableTile,
        ) <==> forall|e: Direction| !m.can_move(position, e))
        &&& here ==> (r == Err::<(Direction, u64), LibErrorExtended>(
            LibErrorExtended::EnergyOutOfLimit,
        ) <==> exists|d: Direction, c: u64| cheapest_move(m, position, d, c) && c > remaining)
        &&& here ==> (r is Ok || r == Err::<(Direction, u64), LibErrorExtended>(
            LibErrorExtended::NoWalkableTile,
        ) || r == Err::<(Direction, u64), LibErrorExtended>(LibErrorExtended::EnergyOutOfLimit))
        &&& !goal_reachable(&prob) ==> r == Err::<(Direction, u64), LibErrorExtended>(
            LibErrorExtended::NoSolution,
        )
        &&& r == Err::<(Direction, u64), LibErrorExtended>(LibErrorExtended::NoSolution)
            ==> !goal_reachable(&prob) || cost_overflows(&prob)
        &&& modest_costs(m) ==> (r == Err::<(Direction, u64), LibErrorExtended>(
            LibErrorExtended::NoSolution,
        ) <==> !goal_reachable(&prob))
        &&& (!here && r == Err::<(Direction, u64), LibErrorExtended>(
            LibErrorExtended::EnergyOutOfLimit,
        )) ==> exists|w: Seq<Direction>|
            walk_valid(&prob, prob.init(), w) && prob.goal(walk_end(&prob, prob.init(), w))
                && #[trigger] walk_cost(&prob, prob.init(), w) > remaining && (min_step_one(m)
                ==> best_goal_walk(&prob, w))
        &&& !here ==> (r is Ok || r == Err::<(Direction, u64), LibErrorExtended>(
            LibErrorExtended::NoSolution,
        ) || r == Err::<(Direction, u64), LibErrorExtended>(LibErrorExtended::EnergyOutOfLimit))
    }
}

/// Every cell is discovered and walkable, costs one to enter and lies at
/// elevation zero, and the map has at most 2^30 cells.
pub open spec fn open_flat(map: &KnownMap) -> bool {
    &&& map.rows() * map.cols() <= 0x4000_0000
    &&& forall|p: Position|
        #[trigger] map.in_bounds(p) ==> map.known(p) && map.known_cell(p).walkable
            && map.known_cell(p).step_cost == 1 && map.known_cell(p).elevation == 0
}

/// The moves of a staircase from `from` to `to`: the rows first, then the
/// columns.
pub open spec fn stair(from: Position, to: Position) -> Seq<Direction>
    decreases manhattan(from, to),
{
    if to.col > from.col {
        stair(from, Position { row: to.row, col: (to.col - 1) as usize }).push(Direction::Right)
    } else if to.col < from.col {
        stair(from, Position { row: to.row, col: (to.col + 1) as usize }).push(Direction::Left)
    } else if to.row > from.row {
        stair(from, Position { row: (to.row - 1) as usize, col: to.col }).push(Direction::Down)
    } else if to.row < from.row {
        stair(from, Position { row: (to.row + 1) as usize, col: to.col }).push(Direction::Up)
    } else {
        Seq::empty()
    }
}

/// On an open flat grid the staircase from the agent reaches any cell at a
/// cost equal to their Manhattan distance.
proof fn lemma_stair(prob: &RobotSearch, to: Position)
    requires
        prob.wf(),
        open_flat(prob.known_world),
        prob.known_world.in_bounds(to),
    ensures
        walk_valid(prob, prob.init(), stair(prob.robot_position, to)),
        walk_end(prob, prob.init(), stair(prob.robot_position, to)) == state_at(prob.known_world, to),
        walk_cost(prob, prob.init(), stair(prob.robot_position, to)) == manhattan(
            prob.robot_position,
            to,
        ),
    decreases manhattan(prob.robot_position, to),
{
    let map = prob.known_world;
    let from = prob.robot_position;
    let w = stair(from, to);
    if to == from {
        assert(w =~= Seq::<Direction>::empty());
    } else {
        let (prev, d) = if to.col > from.col {
            (Position { row: to.row, col: (to.col - 1) as usize }, Direction::Right)
        } else if to.col < from.col {
            (Position { row: to.row, col: (to.col + 1) as usize }, Direction::Left)
        } else if to.row > from.row {
            (Position { row: (to.row - 1) as usize, col: to.col }, Direction::Down)
        } else {
            (Position { row: (to.row + 1) as usize, col: to.col }, Direction::Up)
        };
        assert(map.in_bounds(prev));
        lemma_stair(prob, prev);
        let pre = stair(from, prev);
        assert(w == pre.push(d));
        assert(w.drop_last() =~= pre);
        assert(map.in_bounds(to));
        crate::grid::lemma_neighbor_coords(map, prev, d);
        assert(map.neighbor(prev, d) == Some(to));
        assert(map.can_move(prev, d));
        let f = |x: Direction| map.can_move(prev, x);
        let i: int = match d {
            Direction::Up => 0,
            Direction::Down => 1,
            Direction::Left => 2,
            Direction::Right => 3,
        };
        assert(all_directions()[i] == d);
        all_directions().lemma_filter_contains(f, i);
        assert(map.moves(prev).contains(d));
        assert(map.in_bounds(prev) && map.in_bounds(to));
        assert(map.step_cost(prev, d) == 1);
    }
}

/// Optimality on an open flat grid: a walk to the content that is best in
/// cost plus estimate, as the nearest-content search returns, costs no more
/// than any other walk to the content.
pub proof fn lemma_open_grid_optimal(prob: &RobotSearch, w: Seq<Direction>, v: Seq<Direction>)
    requires
        prob.wf(),
        open_flat(prob.known_world),
        best_goal_walk(prob, w),
        walk_valid(prob, prob.init(), v),
        prob.goal(walk_end(prob, prob.init(), v)),
    ensures
        walk_cost(prob, prob.init(), w) <= walk_cost(prob, prob.init(), v),
{
    let map = prob.known_world;
    let init = prob.init();
    let s = walk_end(prob, init, w);
    lemma_walk_end_valid(prob, init, w);
    lemma_stair(prob, s.position);
    let z = stair(prob.robot_position, s.position);
    assert(walk_end(prob, init, z) == s);
    assert(walk_cost(prob, init, w) + prob.estimate_of(s) <= walk_cost(prob, init, z)
        + prob.estimate_of(walk_end(prob, init, z)));
    assert(forall|p: Position| #[trigger] map.known(p) ==> map.in_bounds(p));
    assert(min_step_one(map));
    lemma_estimate_admissible(prob, v);
}

/// On an open flat grid the map's costs are modest and every step costs at
/// least one, so the nearest-content search succeeds whenever the content is
/// on the map, with a cheapest walk.
pub proof fn lemma_open_grid_costs(map: &KnownMap)
    requires
        map.wf(),
        open_flat(map),
    ensures
        modest_costs(map),
        min_step_one(map),
{
    assert forall|p: Position| #[trigger] map.known(p) implies map.known_cell(p).step_cost
        + map.known_cell(p).elevation * map.known_cell(p).elevation <= 0x1_0000_0000 by {
        assert(map.in_bounds(p));
    }
    assert forall|p: Position| #[trigger] map.known(p) implies map.known_cell(p).step_cost >= 1 by {
        assert(map.in_bounds(p));
    }
}

/// On an open flat grid with the content somewhere on the map, the content
/// can be reached.
pub proof fn lemma_open_grid_reachable(prob: &RobotSearch, g: Position)
    requires
        prob.wf(),
        open_flat(prob.known_world),
        prob.known_world.in_bounds(g),
        prob.known_world.known_cell(g).content == prob.goal_state_type,
    ensures
        goal_reachable(prob),
{
    lemma_stair(prob, g);
    let z = stair(prob.robot_position, g);
    assert(prob.goal(walk_end(prob, prob.init(), z)));
}

/// Tool for collecting content into the agent's backpack.
pub struct CollectTool;

impl CollectTool {
    /// The move that reaches the cell at `(i, j)` of the agent's 3x3 view,
    /// whose centre `(1, 1)` is the agent itself; `None` for the centre and
    /// the corners.
    pub fn create_direction(i_index: usize, j_index: usize) -> (r: Option<Direction>)
        ensures
            r == (if i_index == 0 && j_index == 1 {
                Some(Direction::Up)
            } else if i_index == 1 && j_index == 0 {
                Some(Direction::Left)
            } else if i_index == 1 && j_index == 2 {
                Some(Direction::Right)
            } else if i_index == 2 && j_index == 1 {
                Some(Direction::Down)
            } else {
                None
            }),
    {
        if i_index == 0 && j_index == 1 {
            Some(Direction::Up)
        } else if i_index == 1 {
            if j_index == 0 {
                Some(Direction::Left)
            } else if j_index == 2 {
                Some(Direction::Right)
            } else {
                None
            }
        } else if i_index == 2 && j_index == 1 {
            Some(Direction::Down)
        } else {
            None
        }
    }

    /// The directions in which a neighbour of `position` holds `content`, in
    /// the order Up, Left, Right, Down: what can be collected without moving.
    pub fn instantly_reachable(map: &KnownMap, position: Position, content: usize) -> (r: Vec<
        Direction,
    >)
        requires
            map.wf(),
        ensures
            r@ == adjacent_targets(map, position, content),
    {
        let ghost f = |d: Direction| holds_content(map, position, d, content);
        let ghost order = pickup_order();
        let dirs = [Direction::Up, Direction::Left, Direction::Right, Direction::Down];
        let mut out: Vec<Direction> = Vec::new();
        let mut i: usize = 0;
        while i < 4
            invariant
                i <= 4,
                dirs@ == order,
                order == pickup_order(),
                f == (|d: Direction| holds_content(map, position, d, content)),
                map.wf(),
                out@ == order.take(i as int).filter(f),
            decreases 4 - i,
        {
            let d = dirs[i];
            proof {
                reveal(Seq::filter);
                assert(order.take(i as int + 1).drop_last() =~= order.take(i as int));
            }
            let holds = match map.neighbor_of(position, d) {
                Some(q) => match map.get(q) {
                    Some(cell) => cell.content == content,
                    None => false,
                },
                None => false,
            };
            if holds {
                out.push(d);
            }
            i = i + 1;
        }
        proof {
            assert(order.take(4) =~= order);
        }
        out
    }

    /// The cheapest move from `position` onto a discovered walkable
    /// neighbour, with its cost; `None` when there is no such neighbour.
    pub fn get_cheapest_walkable_around(map: &KnownMap, position: Position) -> (r: Option<
        (Direction, u64),
    >)
        requires
            map.wf(),
            map.known(position),
        ensures
            r is None <==> forall|e: Direction| !map.can_move(position, e),
            r matches Some((d, c)) ==> cheapest_move(map, position, d, c),
    {
        let dirs = [Direction::Up, Direction::Down, Direction::Left, Direction::Right];
        let mut best: Option<(Direction, u64)> = None;
        let mut i: usize = 0;
        while i < 4
            invariant
                i <= 4,
                dirs@ == all_directions(),
                map.wf(),
                map.known(position),
                forall|e: Direction| #[trigger] dir_rank(e) < i ==> dirs@[dir_rank(e)] == e,
                best is None <==> forall|e: Direction|
                    dir_rank(e) < i ==> !#[trigger] map.can_move(position, e),
                best matches Some((d, c)) ==> {
                    &&& dir_rank(d) < i
                    &&& map.can_move(position, d)
                    &&& c == map.step_cost(position, d)
                    &&& forall|e: Direction|
                        #[trigger] map.can_move(position, e) && dir_rank(e) < i ==> c <= map.step_cost(
                            position,
                            e,
                        )
                    &&& forall|e: Direction|
                        #[trigger] map.can_move(position, e) && dir_rank(e) < dir_rank(d) ==> c
                            < map.step_cost(position, e)
                },
            decreases 4 - i,
        {
            let d = dirs[i];
            assert(dir_rank(d) == i);
            if map.can_move_to(position, d) {
                let c = map.move_cost_of(position, d);
                match best {
                    None => {
                        best = Some((d, c));
                    },
                    Some((_, bc)) => {
                        if c < bc {
                            best = Some((d, c));
                        }
                    },
                }
            }
            i = i + 1;
        }
        best
    }

    /// Runs the search for the nearest cell holding `content`.
    pub fn check_map_for_content(map: Option<&KnownMap>, position: Position, content: usize) -> (r:
        Result<Solution, LibErrorExtended>)
        requires
            map matches Some(m) ==> m.wf() && m.known(position),
        ensures
            map is None <==> r == Err::<Solution, LibErrorExtended>(LibErrorExtended::RobotMapEmpty),
            map matches Some(m) ==> {
                let prob = content_problem(m, position, content);
                &&& r matches Ok(sol) ==> solves(&prob, sol)
                &&& r matches Err(e) ==> (e == LibErrorExtended::NoSolution ==> !goal_reachable(&prob)
                    || cost_overflows(&prob))
                &&& r matches Err(e) ==> e == LibErrorExtended::NoSolution
                &&& !goal_reachable(&prob) ==> r is Err
                &&& prob.goal(prob.init()) ==> (r matches Ok(sol) && sol.actions@.len() == 0
                    && sol.cost == 0)
                &&& r matches Ok(sol) ==> (min_step_one(m) ==> best_goal_walk(&prob, sol.actions@))
                &&& !cost_overflows(&prob) ==> (r == Err::<Solution, LibErrorExtended>(
                    LibErrorExtended::NoSolution,
                ) <==> !goal_reachable(&prob))
                &&& modest_costs(m) ==> (r == Err::<Solution, LibErrorExtended>(
                    LibErrorExtended::NoSolution,
                ) <==> !goal_reachable(&prob))
            },
    {
        match map {
            None => Err(LibErrorExtended::RobotMapEmpty),
            Some(m) => {
                let prob = RobotSearch::new(m, position.row, position.col, content);
                let r = search(&prob);
                proof {
                    if min_step_one(m) {
                        lemma_robot_search_consistent(&prob);
                    }
                    if modest_costs(m) {
                        lemma_robot_search_no_overflow(&prob);
                    }
                }
                match r {
                    Ok(sol) => Ok(sol),
                    Err(_) => Err(LibErrorExtended::NoSolution),
                }
            },
        }
    }

    /// The moves of the cheapest known path from `position` to `target`.
    pub fn return_path_to_coordinates(map: Option<&KnownMap>, position: Position, target: Position) -> (r:
        Result<Vec<Direction>, LibErrorExtended>)
        requires
            map matches Some(m) ==> m.wf() && m.known(position),
        ensures
            map is None <==> r == Err::<Vec<Direction>, LibErrorExtended>(
                LibErrorExtended::RobotMapEmpty,
            ),
            map matches Some(m) ==> {
                let prob = path_problem(m, position, target);
                &&& r matches Ok(w) ==> walk_valid(&prob, prob.init(), w@) && walk_end(
                    &prob,
                    prob.init(),
                    w@,
                ).position == target
                &&& r matches Err(e) ==> e == LibErrorExtended::NoSolution
                &&& r matches Err(e) ==> (e == LibErrorExtended::NoSolution ==> !goal_reachable(&prob)
                    || cost_overflows(&prob))
                &&& !goal_reachable(&prob) ==> r is Err
                &&& position == target ==> (r matches Ok(w) && w@.len() == 0)
                &&& !cost_overflows(&prob) ==> (r == Err::<Vec<Direction>, LibErrorExtended>(
                    LibErrorExtended::NoSolution,
                ) <==> !goal_reachable(&prob))
                &&& modest_costs(m) ==> (r == Err::<Vec<Direction>, LibErrorExtended>(
                    LibErrorExtended::NoSolution,
                ) <==> !goal_reachable(&prob))
                &&& r matches Ok(w) ==> (min_step_one(m) ==> forall|v: Seq<Direction>|
                    walk_valid(&prob, prob.init(), v) && walk_end(&prob, prob.init(), v).position
                        == target ==> walk_cost(&prob, prob.init(), w@) <= #[trigger] walk_cost(
                        &prob,
                        prob.init(),
                        v,
                    ))
            },
    {
        match map {
            None => Err(LibErrorExtended::RobotMapEmpty),
            Some(m) => {
                let prob = PathSearch::new(m, position.row, position.col, target.row, target.col);
                let r = search(&prob);
                proof {
                    if modest_costs(m) {
                        lemma_path_search_no_overflow(&prob);
                    }
                }
                match r {
                    Ok(sol) => {
                        proof {
                            if min_step_one(m) {
                                lemma_path_search_consistent(&prob);
                                assert forall|v: Seq<Direction>|
                                    walk_valid(&prob, prob.init(), v) && walk_end(
                                        &prob,
                                        prob.init(),
                                        v,
                                    ).position == target implies walk_cost(
                                    &prob,
                                    prob.init(),
                                    sol.actions@,
                                ) <= #[trigger] walk_cost(&prob, prob.init(), v) by {
                                    assert(prob.goal(walk_end(&prob, prob.init(), v)));
                                }
                            }
                        }
                        Ok(sol.actions)
                    },
                    Err(_) => Err(LibErrorExtended::NoSolution),
                }
            },
        }
    }

    /// Chooses the next move toward `content`, given the energy that may
    /// still be spent.
    ///
    /// Away from the content, the move is the first of a cheapest known path
    /// to it, and the whole path must fit in `remaining`. Standing on the
    /// content, the move is the cheapest step onto a walkable neighbour, and
    /// that step must fit.
    pub fn plan_step(map: Option<&KnownMap>, position: Position, content: usize, remaining: u64) -> (r:
        Result<(Direction, u64), LibErrorExtended>)
        requires
            map matches Some(m) ==> m.wf() && m.known(position),
        ensures
            plan_outcome(map, position, content, remaining, r),
    {
        let sol = match Self::check_map_for_content(map, position, content) {
            Ok(sol) => sol,
            Err(e) => {
                return Err(e);
            },
        };
        let m = map.unwrap();
        let ghost prob = content_problem(m, position, content);
        if sol.cost > remaining {
            proof {
                assert(walk_cost(&prob, prob.init(), sol.actions@) > remaining);
                if m.known_cell(position).content == content {
                    assert(walk_end(&prob, prob.init(), sol.actions@) == prob.init());
                }
            }
            return Err(LibErrorExtended::EnergyOutOfLimit);
        }
        if sol.actions.len() > 0 {
            let d = sol.actions[0];
            proof {
                lemma_first_move(&prob, prob.init(), sol.actions@);
                crate::grid::lemma_listed_move(m, position, d);
                assert(walk_cost(&prob, prob.init(), sol.actions@) <= remaining);
                if m.known_cell(position).content == content {
                    assert(prob.goal(prob.init()));
                }
            }
            let c = m.move_cost_of(position, d);
            Ok((d, c))
        } else {
            proof {
                assert(walk_end(&prob, prob.init(), sol.actions@) == prob.init());
            }
            match Self::get_cheapest_walkable_around(m, position) {
                None => Err(LibErrorExtended::NoWalkableTile),
                Some((d, c)) => {
                    if c > remaining {
                        Err(LibErrorExtended::EnergyOutOfLimit)
                    } else {
                        proof {
                            assert forall|d2: Direction, c2: u64|
                                cheapest_move(m, position, d2, c2) implies c2 <= remaining by {
                                assert(m.can_move(position, d2));
                            }
                        }
                        Ok((d, c))
                    }
                },
            }
        }
    }
}

/// What the controller asks the host to do next.
#[derive(Debug, Clone, Copy, PartialEq, Eq)]
pub enum CollectCommand {
    /// Collect the content of the neighbour in this direction.
    Destroy(Direction),
    /// Step in this direction.
    Go(Direction),
    /// The collection is over, with this outcome.
    Finish(Result<usize, LibErrorExtended>),
}

/// What the host reports after carrying out the previous command.
#[derive(Debug, Clone, Copy, PartialEq, Eq, Structural)]
pub enum HostReport {
    /// Nothing has been done yet: the collection starts.
    Started,
    /// A `Destroy` collected this many units.
    Destroyed(usize),
    /// A `Destroy` failed.
    DestroyFailed(HostError),
    /// A `Go` moved the agent.
    Moved,
    /// A `Go` failed for want of energy.
    MoveFailed,
}

/// One request to collect up to `quantity` units of `content` without
/// spending more than a given amount of energy.
///
/// The host calls `step` with its report on the previous command, the known
/// map, the agent's position and its energy, and carries out the command
/// that comes back, until that command is `Finish`.
#[derive(Debug, Clone)]
pub struct CollectSession {
    pub content: usize,
    pub destroyable: bool,
    pub quantity: usize,
    /// The energy level below which no move may take the agent.
    pub energy_floor: usize,
    pub collected: usize,
    /// Neighbours still to be collected from, in order.
    pub pending: Vec<Direction>,
    pub outcome: Option<Result<usize, LibErrorExtended>>,
}

/// The pickups that wait after `report`: the targets around the agent after
/// the start or a move, else those left from before.
pub open spec fn queue_after(
    s: CollectSession,
    report: HostReport,
    map: Option<&KnownMap>,
    position: Position,
) -> Seq<Direction> {
    match report {
        HostReport::Started | HostReport::Moved => match map {
            Some(m) => adjacent_targets(m, position, s.content),
            None => Seq::empty(),
        },
        _ => s.pending@,
    }
}

/// The count collected after `report`, capped at `usize::MAX`.
pub open spec fn collected_after(s: CollectSession, report: HostReport) -> usize {
    match report {
        HostReport::Destroyed(q) => if s.collected + q > usize::MAX {
            usize::MAX
        } else {
            (s.collected + q) as usize
        },
        _ => s.collected,
    }
}

/// `report` ends the collection with an error, whatever else holds.
pub open spec fn failing_report(s: CollectSession, report: HostReport) -> Option<LibErrorExtended> {
    match report {
        HostReport::DestroyFailed(e) => Some(LibErrorExtended::CommonError(e)),
        HostReport::MoveFailed => Some(LibErrorExtended::CommonError(HostError::NotEnoughEnergy)),
        HostReport::Started => if !s.destroyable {
            Some(LibErrorExtended::CommonError(HostError::CannotDestroy))
        } else {
            None
        },
        HostReport::Moved => if !s.destroyable {
            Some(LibErrorExtended::CommonError(HostError::CannotDestroy))
        } else {
            None
        },
        _ => None,
    }
}

impl CollectSession {
    /// Opens a request to collect `quantity` units of `content`, spending at
    /// most `energy_limit_cost` of the agent's current `energy`.
    pub fn new(
        content: usize,
        destroyable: bool,
        quantity: usize,
        energy_limit_cost: usize,
        energy: usize,
    ) -> (r: CollectSession)
        ensures
            r.content == content,
            r.destroyable == destroyable,
            r.quantity == quantity,
            r.energy_floor == (if energy_limit_cost <= energy {
                energy - energy_limit_cost
            } else {
                0
            }),
            r.collected == 0,
            r.pending@.len() == 0,
            r.outcome is None,
    {
        let energy_floor = if energy_limit_cost <= energy {
            energy - energy_limit_cost
        } else {
            0
        };
        CollectSession {
            content,
            destroyable,
            quantity,
            energy_floor,
            collected: 0,
            pending: Vec::new(),
            outcome: None,
        }
    }

    fn finish(&mut self, o: Result<usize, LibErrorExtended>) -> (r: CollectCommand)
        ensures
            r == CollectCommand::Finish(o),
            final(self).outcome == Some(o),
            final(self).content == old(self).content,
            final(self).destroyable == old(self).destroyable,
            final(self).quantity == old(self).quantity,
            final(self).energy_floor == old(self).energy_floor,
            final(self).collected == old(self).collected,
            final(self).pending@ == old(self).pending@,
    {
        self.outcome = Some(o);
        CollectCommand::Finish(o)
    }

    /// Takes the host's report on the previous command and decides the next
    /// one.
    ///
    /// Pickups around the agent come first, one per step. Then, while less
    /// than `quantity` has been collected and the energy is above the floor,
    /// the agent moves as `plan_step` decides; a move is never issued whose
    /// cost would take the energy below the floor. Otherwise the collection
    /// finishes with the count collected. A failed host primitive, or a plan
    /// that cannot be made, finishes it with the error.
    pub fn step(&mut self, report: HostReport, map: Option<&KnownMap>, position: Position, energy: usize) -> (cmd:
        CollectCommand)
        requires
            map matches Some(m) ==> m.wf() && m.known(position),
        ensures
            old(self).outcome is Some ==> cmd == CollectCommand::Finish(old(self).outcome->Some_0),
            old(self).outcome is Some ==> final(self).outcome == old(self).outcome,
            final(self).content == old(self).content,
            final(self).destroyable == old(self).destroyable,
            final(self).quantity == old(self).quantity,
            final(self).energy_floor == old(self).energy_floor,
            cmd matches CollectCommand::Finish(o) ==> final(self).outcome == Some(o),
            old(self).outcome is None ==> {
                let s = *old(self);
                let queue = queue_after(s, report, map, position);
                let count = collected_after(s, report);
                &&& final(self).collected == count
                &&& failing_report(s, report) matches Some(e) ==> cmd == CollectCommand::Finish(Err(e))
                &&& failing_report(s, report) is None && queue.len() > 0 ==> cmd
                    == CollectCommand::Destroy(queue[0]) && final(self).pending@ == queue.drop_first()
                &&& failing_report(s, report) is None && queue.len() == 0 && !(energy > s.energy_floor
                    && count < s.quantity) ==> cmd == CollectCommand::Finish(Ok(count))
                &&& failing_report(s, report) is None && queue.len() == 0 && energy > s.energy_floor
                    && count < s.quantity ==> exists|o: Result<(Direction, u64), LibErrorExtended>|
                    #[trigger] plan_outcome(
                        map,
                        position,
                        s.content,
                        (energy - s.energy_floor) as u64,
                        o,
                    ) && match o {
                        Ok((d, _)) => cmd == CollectCommand::Go(d),
                        Err(e) => cmd == CollectCommand::Finish(Err(e)),
                    }
                &&& cmd matches CollectCommand::Go(d) ==> {
                    &&& map is Some
                    &&& map->Some_0.can_move(position, d)
                    &&& energy > s.energy_floor
                    &&& energy - map->Some_0.step_cost(position, d) >= s.energy_floor
                    &&& count < s.quantity
                }
                &&& cmd matches CollectCommand::Finish(Ok(n)) ==> n == count && (count >= s.quantity
                    || energy <= s.energy_floor)
            },
    {
        if let Some(o) = self.outcome {
            return CollectCommand::Finish(o);
        }
        match report {
            HostReport::Started | HostReport::Moved => {
                if !self.destroyable {
                    return self.finish(Err(LibErrorExtended::CommonError(HostError::CannotDestroy)));
                }
                self.pending = match map {
                    Some(m) => CollectTool::instantly_reachable(m, position, self.content),
                    None => Vec::new(),
                };
            },
            HostReport::Destroyed(q) => {
                self.collected = self.collected.saturating_add(q);
            },
            HostReport::DestroyFailed(e) => {
                return self.finish(Err(LibErrorExtended::CommonError(e)));
            },
            HostReport::MoveFailed => {
                return self.finish(Err(LibErrorExtended::CommonError(HostError::NotEnoughEnergy)));
            },
        }
        if self.pending.len() > 0 {
            let d = self.pending.remove(0);
            return CollectCommand::Destroy(d);
        }
        if energy > self.energy_floor && self.collected < self.quantity {
            let remaining = (energy - self.energy_floor) as u64;
            let plan = CollectTool::plan_step(map, position, self.content, remaining);
            assert(plan_outcome(map, position, self.content, remaining, plan));
            match plan {
                Ok((d, _)) => CollectCommand::Go(d),
                Err(e) => self.finish(Err(e)),
            }
        } else {
            let n = self.collected;
            self.finish(Ok(n))
        }
    }
}

} // verus!
