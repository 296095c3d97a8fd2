//! The two search problems on the known map: the nearest cell holding a
//! content category, and a path to a given cell.
//!
//! Both move over discovered walkable cells only, price a move by the
//! target's step cost plus the squared climb, and estimate a state by its
//! Manhattan distance from the agent's own position.
use vstd::prelude::*;
use crate::grid::{lemma_listed_move, manhattan, manhattan_distance, Direction, KnownMap};
use crate::search::{
    consistent, cost_overflows, goal_reachable, lemma_walk_end_valid, walk_cost, walk_end, walk_valid,
    HeuristicProblem, State,
};
use crate::storage::Position;

verus! {

/// The search state standing for the discovered cell at `p`.
pub open spec fn state_at(map: &KnownMap, p: Position) -> State {
    State { position: p, content: map.known_cell(p).content, quantity: map.known_cell(p).quantity }
}

/// The number of a cell in row-major order.
pub open spec fn cell_index(map: &KnownMap, p: Position) -> nat {
    (p.row * map.cols() + p.col) as nat
}

/// Row-major numbering is one to one on the cells of the map.
pub proof fn lemma_cell_index_injective(map: &KnownMap, p: Position, q: Position)
    requires
        map.in_bounds(p),
        map.in_bounds(q),
        cell_index(map, p) == cell_index(map, q),
    ensures
        p == q,
{
    let c = map.cols() as int;
    let (r1, c1, r2, c2) = (p.row as int, p.col as int, q.row as int, q.col as int);
    assert(r1 == r2) by (nonlinear_arith)
        requires
            r1 * c + c1 == r2 * c + c2,
            0 <= c1 < c,
            0 <= c2 < c,
            r1 >= 0,
            r2 >= 0,
    {
        if r1 < r2 {
            assert(r1 * c + c <= r2 * c);
        } else if r2 < r1 {
            assert(r2 * c + c <= r1 * c);
        }
    }
}

/// Computes `cell_index`; it stays below the number of cells.
pub fn index_of_cell(map: &KnownMap, p: Position) -> (r: usize)
    requires
        map.wf(),
        map.in_bounds(p),
    ensures
        r == cell_index(map, p),
        r < map.rows() * map.cols(),
{
    let cols = map.num_cols();
    proof {
        let rows = map.rows() as int;
        let (row, col, c) = (p.row as int, p.col as int, cols as int);
        assert(row * c + col < rows * c) by (nonlinear_arith)
            requires
                0 <= row < rows,
                0 <= col < c,
        {
            assert(row * c + c <= rows * c);
        }
    }
    p.row * cols + p.col
}

/// The search state of the discovered cell at `p`.
pub fn state_of_cell(map: &KnownMap, p: Position) -> (r: State)
    requires
        map.wf(),
        map.known(p),
    ensures
        r == state_at(map, p),
{
    let cell = map.get(p).unwrap();
    State::new(p, cell.content, cell.quantity)
}

/// Finds the cheapest known path from the agent's position to any cell whose
/// content category is `goal_state_type`.
pub struct RobotSearch<'a> {
    pub known_world: &'a KnownMap,
    pub robot_position: Position,
    pub goal_state_type: usize,
}

impl<'a> RobotSearch<'a> {
    pub fn new(
        known_world: &'a KnownMap,
        robot_position_x: usize,
        robot_position_y: usize,
        goal_state_type: usize,
    ) -> (r: RobotSearch<'a>)
        ensures
            r.known_world == known_world,
            r.robot_position == (Position { row: robot_position_x, col: robot_position_y }),
            r.goal_state_type == goal_state_type,
    {
        RobotSearch {
            known_world,
            robot_position: Position::new(robot_position_x, robot_position_y),
            goal_state_type,
        }
    }
}

impl<'a> HeuristicProblem for RobotSearch<'a> {
    open spec fn wf(&self) -> bool {
        self.known_world.wf() && self.known_world.known(self.robot_position)
    }

    open spec fn num_states(&self) -> nat {
        self.known_world.rows() * self.known_world.cols()
    }

    open spec fn valid(&self, s: State) -> bool {
        self.known_world.known(s.position) && s == state_at(self.known_world, s.position)
    }

    open spec fn index_of(&self, s: State) -> nat {
        cell_index(self.known_world, s.position)
    }

    open spec fn init(&self) -> State {
        state_at(self.known_world, self.robot_position)
    }

    open spec fn goal(&self, s: State) -> bool {
        s.content == self.goal_state_type
    }

    open spec fn legal(&self, s: State) -> Seq<Direction> {
        self.known_world.moves(s.position)
    }

    open spec fn next(&self, s: State, a: Direction) -> State {
        state_at(self.known_world, self.known_world.neighbor(s.position, a)->Some_0)
    }

    open spec fn step_cost(&self, s: State, a: Direction) -> nat {
        self.known_world.step_cost(s.position, a)
    }

    open spec fn estimate_of(&self, s: State) -> nat {
        manhattan(self.robot_position, s.position)
    }

    proof fn lemma_next_valid(&self, s: State, a: Direction) {
        lemma_listed_move(self.known_world, s.position, a);
    }

    proof fn lemma_index_injective(&self, s: State, t: State) {
        lemma_cell_index_injective(self.known_world, s.position, t.position);
    }

    fn state_count(&self) -> (r: usize) {
        self.known_world.num_rows() * self.known_world.num_cols()
    }

    fn state_index(&self, s: &State) -> (r: usize) {
        index_of_cell(self.known_world, s.position)
    }

    fn initial_state(&self) -> (r: State) {
        state_of_cell(self.known_world, self.robot_position)
    }

    fn is_goal(&self, s: &State) -> (r: bool) {
        s.content == self.goal_state_type
    }

    fn actions(&self, s: &State) -> (r: Vec<Direction>) {
        self.known_world.legal_moves(s.position)
    }

    fn result(&self, s: &State, a: Direction) -> (r: State) {
        proof {
            lemma_listed_move(self.known_world, s.position, a);
        }
        let q = self.known_world.neighbor_of(s.position, a).unwrap();
        state_of_cell(self.known_world, q)
    }

    fn cost(&self, s: &State, a: Direction) -> (r: u64) {
        proof {
            lemma_listed_move(self.known_world, s.position, a);
        }
        self.known_world.move_cost_of(s.position, a)
    }

    fn estimate(&self, s: &State) -> (r: u64) {
        manhattan_distance(self.known_world, self.robot_position, s.position)
    }
}

/// Finds the cheapest known path from the agent's position to the cell
/// `target`.
pub struct PathSearch<'a> {
    pub known_world: &'a KnownMap,
    pub robot_position: Position,
    pub target: Position,
}

impl<'a> PathSearch<'a> {
    pub fn new(
        known_world: &'a KnownMap,
        robot_position_x: usize,
        robot_position_y: usize,
        target_x: usize,
        target_y: usize,
    ) -> (r: PathSearch<'a>)
        ensures
            r.known_world == known_world,
            r.robot_position == (Position { row: robot_position_x, col: robot_position_y }),
            r.target == (Position { row: target_x, col: target_y }),
    {
        PathSearch {
            known_world,
            robot_position: Position::new(robot_position_x, robot_position_y),
            target: Position::new(target_x, target_y),
        }
    }
}

impl<'a> HeuristicProblem for PathSearch<'a> {
    open spec fn wf(&self) -> bool {
        self.known_world.wf() && self.known_world.known(self.robot_position)
    }

    open spec fn num_states(&self) -> nat {
        self.known_world.rows() * self.known_world.cols()
    }

    open spec fn valid(&self, s: State) -> bool {
        self.known_world.known(s.position) && s == state_at(self.known_world, s.position)
    }

    open spec fn index_of(&self, s: State) -> nat {
        cell_index(self.known_world, s.position)
    }

    open spec fn init(&self) -> State {
        state_at(self.known_world, self.robot_position)
    }

    open spec fn goal(&self, s: State) -> bool {
        s.position == self.target
    }

    open spec fn legal(&self, s: State) -> Seq<Direction> {
        self.known_world.moves(s.position)
    }

    open spec fn next(&self, s: State, a: Direction) -> State {
        state_at(self.known_world, self.known_world.neighbor(s.position, a)->Some_0)
    }

    open spec fn step_cost(&self, s: State, a: Direction) -> nat {
        self.known_world.step_cost(s.position, a)
    }

    open spec fn estimate_of(&self, s: State) -> nat {
        manhattan(self.robot_position, s.position)
    }

    proof fn lemma_next_valid(&self, s: State, a: Direction) {
        lemma_listed_move(self.known_world, s.position, a);
    }

    proof fn lemma_index_injective(&self, s: State, t: State) {
        lemma_cell_index_injective(self.known_world, s.position, t.position);
    }

    fn state_count(&self) -> (r: usize) {
        self.known_world.num_rows() * self.known_world.num_cols()
    }

    fn state_index(&self, s: &State) -> (r: usize) {
        index_of_cell(self.known_world, s.position)
    }

    fn initial_state(&self) -> (r: State) {
        state_of_cell(self.known_world, self.robot_position)
    }

    fn is_goal(&self, s: &State) -> (r: bool) {
        s.position == self.target
    }

    fn actions(&self, s: &State) -> (r: Vec<Direction>) {
        self.known_world.legal_moves(s.position)
    }

    fn result(&self, s: &State, a: Direction) -> (r: State) {
        proof {
            lemma_listed_move(self.known_world, s.position, a);
        }
        let q = self.known_world.neighbor_of(s.position, a).unwrap();
        state_of_cell(self.known_world, q)
    }

    fn cost(&self, s: &State, a: Direction) -> (r: u64) {
        proof {
            lemma_listed_move(self.known_world, s.position, a);
        }
        self.known_world.move_cost_of(s.position, a)
    }

    fn estimate(&self, s: &State) -> (r: u64) {
        manhattan_distance(self.known_world, self.robot_position, s.position)
    }
}

/// Every discovered cell costs at least one to enter.
pub open spec fn min_step_one(map: &KnownMap) -> bool {
    forall|p: Position| #[trigger] map.known(p) ==> map.known_cell(p).step_cost >= 1
}

/// Admissibility of the Manhattan estimate: when every step costs at least
/// one, no walk between two cells costs less than their Manhattan distance.
/// So the distance from a state to a goal never exceeds the cost still to pay
/// to reach that goal.
pub proof fn lemma_manhattan_admissible(prob: &RobotSearch, s: State, w: Seq<Direction>)
    requires
        prob.wf(),
        min_step_one(prob.known_world),
        walk_valid(prob, s, w),
    ensures
        manhattan(s.position, walk_end(prob, s, w).position) <= walk_cost(prob, s, w),
    decreases w.len(),
{
    if w.len() > 0 {
        let pre = w.drop_last();
        lemma_manhattan_admissible(prob, s, pre);
        let e = walk_end(prob, s, pre);
        lemma_walk_end_valid(prob, s, pre);
        lemma_listed_move(prob.known_world, e.position, w.last());
        let q = prob.known_world.neighbor(e.position, w.last())->Some_0;
        assert(prob.known_world.known(q));
        assert(walk_end(prob, s, w).position == q);
        assert(prob.known_world.known_cell(q).step_cost >= 1);
        assert(crate::grid::move_cost(prob.known_world.known_cell(e.position), prob.known_world.known_cell(q))
            >= 1);
        assert(walk_cost(prob, s, w) == walk_cost(prob, s, pre) + prob.step_cost(e, w.last()));
        crate::grid::lemma_neighbor_coords(prob.known_world, e.position, w.last());
        assert(manhattan(s.position, q) <= manhattan(s.position, e.position) + 1);
    }
}

/// The search's estimate of a state, its Manhattan distance from the agent,
/// never exceeds the cost of any walk from the agent to that state when every
/// step costs at least one.
pub proof fn lemma_estimate_admissible(prob: &RobotSearch, w: Seq<Direction>)
    requires
        prob.wf(),
        min_step_one(prob.known_world),
        walk_valid(prob, prob.init(), w),
    ensures
        prob.estimate_of(walk_end(prob, prob.init(), w)) <= walk_cost(prob, prob.init(), w),
{
    lemma_manhattan_admissible(prob, prob.init(), w);
}

/// One move changes the distance from `origin` by at most one, and costs at
/// least one.
pub proof fn lemma_manhattan_step(map: &KnownMap, origin: Position, p: Position, d: Direction)
    requires
        map.wf(),
        min_step_one(map),
        map.can_move(p, d),
    ensures
        manhattan(origin, p) <= map.step_cost(p, d) + manhattan(
            origin,
            map.neighbor(p, d)->Some_0,
        ),
{
    let q = map.neighbor(p, d)->Some_0;
    crate::grid::lemma_neighbor_coords(map, p, d);
    assert(map.known(q));
    assert(map.known_cell(q).step_cost >= 1);
}

/// When every step costs at least one, the nearest-content search's estimate
/// is consistent.
pub proof fn lemma_robot_search_consistent(prob: &RobotSearch)
    requires
        prob.wf(),
        min_step_one(prob.known_world),
    ensures
        consistent(prob),
{
    assert forall|s: State, a: Direction| prob.valid(s) && #[trigger] prob.legal(s).contains(a) implies prob.estimate_of(
        s,
    ) <= prob.step_cost(s, a) + prob.estimate_of(prob.next(s, a)) by {
        lemma_listed_move(prob.known_world, s.position, a);
        lemma_manhattan_step(prob.known_world, prob.robot_position, s.position, a);
    }
}

/// When every step costs at least one, the path search's estimate is
/// consistent.
pub proof fn lemma_path_search_consistent(prob: &PathSearch)
    requires
        prob.wf(),
        min_step_one(prob.known_world),
    ensures
        consistent(prob),
{
    assert forall|s: State, a: Direction| prob.valid(s) && #[trigger] prob.legal(s).contains(a) implies prob.estimate_of(
        s,
    ) <= prob.step_cost(s, a) + prob.estimate_of(prob.next(s, a)) by {
        lemma_listed_move(prob.known_world, s.position, a);
        lemma_manhattan_step(prob.known_world, prob.robot_position, s.position, a);
    }
}

/// The move that undoes `d`.
pub open spec fn opposite(d: Direction) -> Direction {
    match d {
        Direction::Up => Direction::Down,
        Direction::Down => Direction::Up,
        Direction::Left => Direction::Right,
        Direction::Right => Direction::Left,
    }
}

/// Every discovered cell holding `content` is cut off: none of its
/// neighbours is the agent's cell or a discovered walkable cell.
pub open spec fn enclosed(map: &KnownMap, robot: Position, content: usize) -> bool {
    forall|g: Position, d: Direction|
        map.known(g) && map.known_cell(g).content == content && #[trigger] map.neighbor(g, d) is Some
            ==> map.neighbor(g, d)->Some_0 != robot && !map.walkable(map.neighbor(g, d)->Some_0)
}

/// A walk of at least one move ends on a discovered walkable cell.
proof fn lemma_walk_ends_walkable(prob: &RobotSearch, w: Seq<Direction>)
    requires
        prob.wf(),
        walk_valid(prob, prob.init(), w),
        w.len() > 0,
    ensures
        prob.known_world.walkable(walk_end(prob, prob.init(), w).position),
        walk_end(prob, prob.init(), w).position == prob.known_world.neighbor(
            walk_end(prob, prob.init(), w.drop_last()).position,
            w.last(),
        )->Some_0,
{
    let pre = w.drop_last();
    lemma_walk_end_valid(prob, prob.init(), pre);
    lemma_listed_move(prob.known_world, walk_end(prob, prob.init(), pre).position, w.last());
}

/// A search for content that the agent does not stand on and that is
/// enclosed finds no goal: every walk from the agent ends away from it.
pub proof fn lemma_enclosed_goal_unreachable(prob: &RobotSearch)
    requires
        prob.wf(),
        !prob.goal(prob.init()),
        enclosed(prob.known_world, prob.robot_position, prob.goal_state_type),
    ensures
        !goal_reachable(prob),
{
    let map = prob.known_world;
    let init = prob.init();
    assert forall|w: Seq<Direction>| walk_valid(prob, init, w) implies !prob.goal(
        #[trigger] walk_end(prob, init, w),
    ) by {
        if w.len() > 0 {
            let pre = w.drop_last();
            let d = w.last();
            let e = walk_end(prob, init, pre);
            lemma_walk_ends_walkable(prob, w);
            lemma_walk_end_valid(prob, init, pre);
            lemma_walk_end_valid(prob, init, w);
            let g = walk_end(prob, init, w).position;
            crate::grid::lemma_neighbor_coords(map, e.position, d);
            assert(map.neighbor(g, opposite(d)) == Some(e.position));
            if prob.goal(walk_end(prob, init, w)) {
                assert(map.known_cell(g).content == prob.goal_state_type);
                assert(map.neighbor(g, opposite(d)) is Some);
                if pre.len() == 0 {
                    assert(e.position == prob.robot_position);
                } else {
                    lemma_walk_ends_walkable(prob, pre);
                }
            }
        }
    }
}

/// The map has at most 2^30 cells and entering any discovered cell costs at
/// most 2^32, climb included: small enough that no path the search builds
/// overflows 64 bits.
pub open spec fn modest_costs(map: &KnownMap) -> bool {
    &&& map.rows() * map.cols() <= 0x4000_0000
    &&& forall|p: Position|
        #[trigger] map.known(p) ==> map.known_cell(p).step_cost + map.known_cell(p).elevation
            * map.known_cell(p).elevation <= 0x1_0000_0000
}

/// On a map of modest costs a move costs at most 2^32.
pub proof fn lemma_modest_step(map: &KnownMap, p: Position, d: Direction)
    requires
        map.wf(),
        modest_costs(map),
        map.known(p),
        map.can_move(p, d),
    ensures
        map.step_cost(p, d) <= 0x1_0000_0000,
{
    let q = map.neighbor(p, d)->Some_0;
    assert(map.known(q));
    let (lo, hi) = (map.known_cell(p).elevation as int, map.known_cell(q).elevation as int);
    if hi > lo {
        assert((hi - lo) * (hi - lo) <= hi * hi) by (nonlinear_arith)
            requires
                0 <= lo < hi,
        ;
    }
}

/// On a map of modest costs the Manhattan distance between two cells is
/// below 2^31.
proof fn lemma_modest_distance(map: &KnownMap, a: Position, b: Position)
    requires
        modest_costs(map),
        map.in_bounds(a),
        map.in_bounds(b),
    ensures
        manhattan(a, b) <= 0x8000_0000,
{
    let (rows, cols) = (map.rows() as int, map.cols() as int);
    assert(rows <= 0x4000_0000 && cols <= 0x4000_0000) by (nonlinear_arith)
        requires
            rows * cols <= 0x4000_0000,
            rows >= 1,
            cols >= 1,
    ;
}

proof fn lemma_modest_walk_robot(prob: &RobotSearch, s: State, w: Seq<Direction>)
    requires
        prob.wf(),
        modest_costs(prob.known_world),
        walk_valid(prob, s, w),
    ensures
        walk_cost(prob, s, w) <= w.len() * 0x1_0000_0000,
    decreases w.len(),
{
    if w.len() > 0 {
        let pre = w.drop_last();
        lemma_modest_walk_robot(prob, s, pre);
        lemma_walk_end_valid(prob, s, pre);
        let e = walk_end(prob, s, pre);
        lemma_listed_move(prob.known_world, e.position, w.last());
        lemma_modest_step(prob.known_world, e.position, w.last());
        assert(pre.len() * 0x1_0000_0000 + 0x1_0000_0000 == w.len() * 0x1_0000_0000) by (nonlinear_arith)
            requires pre.len() + 1 == w.len();
    }
}

proof fn lemma_modest_walk_path(prob: &PathSearch, s: State, w: Seq<Direction>)
    requires
        prob.wf(),
        modest_costs(prob.known_world),
        walk_valid(prob, s, w),
    ensures
        walk_cost(prob, s, w) <= w.len() * 0x1_0000_0000,
    decreases w.len(),
{
    if w.len() > 0 {
        let pre = w.drop_last();
        lemma_modest_walk_path(prob, s, pre);
        lemma_walk_end_valid(prob, s, pre);
        let e = walk_end(prob, s, pre);
        lemma_listed_move(prob.known_world, e.position, w.last());
        lemma_modest_step(prob.known_world, e.position, w.last());
        assert(pre.len() * 0x1_0000_0000 + 0x1_0000_0000 == w.len() * 0x1_0000_0000) by (nonlinear_arith)
            requires pre.len() + 1 == w.len();
    }
}

/// On a map of modest costs the nearest-content search never overflows.
pub proof fn lemma_robot_search_no_overflow(prob: &RobotSearch)
    requires
        prob.wf(),
        modest_costs(prob.known_world),
    ensures
        !cost_overflows(prob),
{
    assert forall|w: Seq<Direction>|
        w.len() <= prob.num_states() && walk_valid(prob, prob.init(), w) implies #[trigger] walk_cost(
        prob,
        prob.init(),
        w,
    ) + prob.estimate_of(walk_end(prob, prob.init(), w)) <= u64::MAX by {
        lemma_modest_walk_robot(prob, prob.init(), w);
        lemma_walk_end_valid(prob, prob.init(), w);
        lemma_modest_distance(
            prob.known_world,
            prob.robot_position,
            walk_end(prob, prob.init(), w).position,
        );
        assert(w.len() * 0x1_0000_0000 <= 0x4000_0000 * 0x1_0000_0000) by (nonlinear_arith)
            requires w.len() <= 0x4000_0000;
    }
}

/// On a map of modest costs the path search never overflows.
pub proof fn lemma_path_search_no_overflow(prob: &PathSearch)
    requires
        prob.wf(),
        modest_costs(prob.known_world),
    ensures
        !cost_overflows(prob),
{
    assert forall|w: Seq<Direction>|
        w.len() <= prob.num_states() && walk_valid(prob, prob.init(), w) implies #[trigger] walk_cost(
        prob,
        prob.init(),
        w,
    ) + prob.estimate_of(walk_end(prob, prob.init(), w)) <= u64::MAX by {
        lemma_modest_walk_path(prob, prob.init(), w);
        lemma_walk_end_valid(prob, prob.init(), w);
        lemma_modest_distance(
            prob.known_world,
            prob.robot_position,
            walk_end(prob, prob.init(), w).position,
        );
        assert(w.len() * 0x1_0000_0000 <= 0x4000_0000 * 0x1_0000_0000) by (nonlinear_arith)
            requires w.len() <= 0x4000_0000;
    }
}

} // verus!
