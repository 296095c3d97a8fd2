//! A generic best-first (A*) solver over an abstract search problem.
//!
//! Nodes live in an arena and refer to their parent by index. The frontier is
//! a list of node handles from which the node with the lowest total estimate
//! is taken, ties going to the state with the larger content quantity. A
//! state taken a second time is skipped.
use vstd::prelude::*;
use crate::grid::Direction;
use crate::storage::Position;
use vstd::set_lib::{lemma_int_range, lemma_len_subset, set_int_range};

verus! {

/// A search state: a cell of the grid with the content it holds.
#[derive(Debug, Clone, Copy)]
pub struct State {
    pub position: Position,
    pub content: usize,
    pub quantity: usize,
}

impl State {
    pub fn new(position: Position, content: usize, quantity: usize) -> (r: State)
        ensures
            r == (State { position, content, quantity }),
    {
        State { position, content, quantity }
    }
}

/// States are equal when their position and content match; the quantity is
/// left out so that comparisons stay stable while it changes.
impl PartialEq for State {
    fn eq(&self, other: &State) -> (r: bool)
        ensures
            r == (self.position == other.position && self.content == other.content),
    {
        self.position == other.position && self.content == other.content
    }
}

impl vstd::std_specs::cmp::PartialEqSpecImpl for State {
    open spec fn obeys_eq_spec() -> bool {
        true
    }

    open spec fn eq_spec(&self, other: &State) -> bool {
        self.position == other.position && self.content == other.content
    }
}

/// What the solver asks of a problem. The spec functions describe the problem
/// mathematically; the executable methods compute them.
pub trait HeuristicProblem {
    /// The problem's own consistency condition.
    spec fn wf(&self) -> bool;

    /// States are numbered below this bound.
    spec fn num_states(&self) -> nat;

    /// The states that the problem can produce.
    spec fn valid(&self, s: State) -> bool;

    spec fn index_of(&self, s: State) -> nat;

    spec fn init(&self) -> State;

    spec fn goal(&self, s: State) -> bool;

    spec fn legal(&self, s: State) -> Seq<Direction>;

    spec fn next(&self, s: State, a: Direction) -> State;

    spec fn step_cost(&self, s: State, a: Direction) -> nat;

    spec fn estimate_of(&self, s: State) -> nat;

    proof fn lemma_next_valid(&self, s: State, a: Direction)
        requires
            self.wf(),
            self.valid(s),
            self.legal(s).contains(a),
        ensures
            self.valid(self.next(s, a)),
    ;

    proof fn lemma_index_injective(&self, s: State, t: State)
        requires
            self.wf(),
            self.valid(s),
            self.valid(t),
            self.index_of(s) == self.index_of(t),
        ensures
            s == t,
    ;

    fn state_count(&self) -> (r: usize)
        requires
            self.wf(),
        ensures
            r == self.num_states(),
    ;

    fn state_index(&self, s: &State) -> (r: usize)
        requires
            self.wf(),
            self.valid(*s),
        ensures
            r == self.index_of(*s),
            r < self.num_states(),
    ;

    fn initial_state(&self) -> (r: State)
        requires
            self.wf(),
        ensures
            r == self.init(),
            self.valid(r),
    ;

    fn is_goal(&self, s: &State) -> (r: bool)
        requires
            self.wf(),
            self.valid(*s),
        ensures
            r == self.goal(*s),
    ;

    fn actions(&self, s: &State) -> (r: Vec<Direction>)
        requires
            self.wf(),
            self.valid(*s),
        ensures
            r@ == self.legal(*s),
            r.len() <= 4,
    ;

    fn result(&self, s: &State, a: Direction) -> (r: State)
        requires
            self.wf(),
            self.valid(*s),
            self.legal(*s).contains(a),
        ensures
            r == self.next(*s, a),
    ;

    fn cost(&self, s: &State, a: Direction) -> (r: u64)
        requires
            self.wf(),
            self.valid(*s),
            self.legal(*s).contains(a),
        ensures
            r == self.step_cost(*s, a),
    ;

    fn estimate(&self, s: &State) -> (r: u64)
        requires
            self.wf(),
            self.valid(*s),
        ensures
            r == self.estimate_of(*s),
    ;
}

/// The state reached from `s` by the moves `w`.
pub open spec fn walk_end<P: HeuristicProblem>(p: &P, s: State, w: Seq<Direction>) -> State
    decreases w.len(),
{
    if w.len() == 0 {
        s
    } else {
        p.next(walk_end(p, s, w.drop_last()), w.last())
    }
}

/// Every move of `w`, made from `s`, is legal where it is made.
pub open spec fn walk_valid<P: HeuristicProblem>(p: &P, s: State, w: Seq<Direction>) -> bool
    decreases w.len(),
{
    if w.len() == 0 {
        p.valid(s)
    } else {
        walk_valid(p, s, w.drop_last()) && p.legal(walk_end(p, s, w.drop_last())).contains(w.last())
    }
}

/// The summed step costs of the moves `w` made from `s`.
pub open spec fn walk_cost<P: HeuristicProblem>(p: &P, s: State, w: Seq<Direction>) -> nat
    decreases w.len(),
{
    if w.len() == 0 {
        0
    } else {
        walk_cost(p, s, w.drop_last()) + p.step_cost(walk_end(p, s, w.drop_last()), w.last())
    }
}

/// Some legal sequence of moves leads from the initial state to a goal.
pub open spec fn goal_reachable<P: HeuristicProblem>(p: &P) -> bool {
    exists|w: Seq<Direction>| walk_valid(p, p.init(), w) && p.goal(#[trigger] walk_end(p, p.init(), w))
}

/// Some legal sequence of at most `num_states` moves from the initial state
/// has a cost that, with the estimate at its end, no longer fits in 64 bits.
/// Only such walks are ever built by the search: each extends a chain of
/// distinct expanded states.
pub open spec fn cost_overflows<P: HeuristicProblem>(p: &P) -> bool {
    exists|w: Seq<Direction>|
        w.len() <= p.num_states() && walk_valid(p, p.init(), w) && #[trigger] walk_cost(
            p,
            p.init(),
            w,
        ) + p.estimate_of(walk_end(p, p.init(), w)) > u64::MAX
}

/// Path `h` has at most `d` moves.
spec fn depth_ok(paths: Seq<Seq<Direction>>, h: int, d: nat) -> bool {
    paths[h].len() <= d
}

/// The moves of `sol` lead legally from the initial state to `sol.state`,
/// which is a goal, at cost `sol.cost`.
pub open spec fn solves<P: HeuristicProblem>(p: &P, sol: Solution) -> bool {
    &&& walk_valid(p, p.init(), sol.actions@)
    &&& walk_end(p, p.init(), sol.actions@) == sol.state
    &&& p.goal(sol.state)
    &&& sol.cost == walk_cost(p, p.init(), sol.actions@)
}

pub proof fn lemma_walk_end_valid<P: HeuristicProblem>(p: &P, s: State, w: Seq<Direction>)
    requires
        p.wf(),
        walk_valid(p, s, w),
    ensures
        p.valid(walk_end(p, s, w)),
    decreases w.len(),
{
    if w.len() > 0 {
        lemma_walk_end_valid(p, s, w.drop_last());
        p.lemma_next_valid(walk_end(p, s, w.drop_last()), w.last());
    }
}

/// The first move of a walk is legal where the walk starts, and the walk
/// costs at least as much as that move.
pub proof fn lemma_first_move<P: HeuristicProblem>(p: &P, s: State, w: Seq<Direction>)
    requires
        walk_valid(p, s, w),
        w.len() > 0,
    ensures
        p.legal(s).contains(w[0]),
        walk_cost(p, s, w) >= p.step_cost(s, w[0]),
    decreases w.len(),
{
    let pre = w.drop_last();
    if w.len() > 1 {
        lemma_first_move(p, s, pre);
        assert(pre[0] == w[0]);
    }
}

/// The moves that lead to a goal, the goal state, and the path's total cost.
#[derive(Debug, Clone)]
pub struct Solution {
    pub actions: Vec<Direction>,
    pub state: State,
    pub cost: u64,
}

impl Solution {
    /// The first move of the solution, if it has one.
    pub fn get_action(&self) -> (r: Option<Direction>)
        ensures
            self.actions@.len() == 0 ==> r is None,
            self.actions@.len() > 0 ==> r == Some(self.actions@[0]),
    {
        if self.actions.len() == 0 {
            None
        } else {
            Some(self.actions[0])
        }
    }
}

#[derive(Debug, Clone, Copy, PartialEq, Eq, Structural)]
pub enum SearchError {
    /// The frontier emptied without reaching a goal.
    NoSolution,
    /// A path cost grew past what 64 bits hold.
    CostOverflow,
}

/// A search node: a state, the cost of the path to it, that cost plus the
/// estimate, the move that produced it (none at the root) and the arena index
/// of its parent.
#[derive(Debug, Clone, Copy)]
pub struct Node {
    pub state: State,
    pub cost: u64,
    pub f_cost: u64,
    pub action: Option<Direction>,
    pub parent: usize,
}

/// `a` is taken from the frontier no later than `b`: lower total estimate
/// first, and on a tie the larger content quantity.
pub open spec fn precedes(a: Node, b: Node) -> bool {
    a.f_cost < b.f_cost || (a.f_cost == b.f_cost && a.state.quantity >= b.state.quantity)
}

/// The position in `frontier` of the node that is expanded next.
pub fn best_in_frontier(arena: &Vec<Node>, frontier: &Vec<usize>) -> (k: usize)
    requires
        frontier.len() > 0,
        forall|j: int| 0 <= j < frontier.len() ==> frontier@[j] < arena.len(),
    ensures
        k < frontier.len(),
        forall|j: int|
            0 <= j < frontier.len() ==> precedes(
                arena@[frontier@[k as int] as int],
                #[trigger] arena@[frontier@[j] as int],
            ),
{
    let mut best: usize = 0;
    let mut j: usize = 1;
    while j < frontier.len()
        invariant
            1 <= j <= frontier.len(),
            best < j,
            forall|j: int| 0 <= j < frontier.len() ==> frontier@[j] < arena.len(),
            forall|i: int|
                0 <= i < j ==> precedes(
                    arena@[frontier@[best as int] as int],
                    #[trigger] arena@[frontier@[i] as int],
                ),
        decreases frontier.len() - j,
    {
        let b = arena[frontier[best]];
        let c = arena[frontier[j]];
        if c.f_cost < b.f_cost || (c.f_cost == b.f_cost && c.state.quantity > b.state.quantity) {
            best = j;
        }
        j = j + 1;
    }
    best
}

/// The estimate never drops by more than the cost of a move.
pub open spec fn consistent<P: HeuristicProblem>(p: &P) -> bool {
    forall|s: State, a: Direction|
        p.valid(s) && #[trigger] p.legal(s).contains(a) ==> p.estimate_of(s) <= p.step_cost(s, a)
            + p.estimate_of(p.next(s, a))
}

/// With a consistent estimate, the estimate at the start of a walk never
/// exceeds the walk's cost plus the estimate at its end.
pub proof fn lemma_consistent_walk<P: HeuristicProblem>(p: &P, s: State, w: Seq<Direction>)
    requires
        p.wf(),
        consistent(p),
        walk_valid(p, s, w),
    ensures
        p.estimate_of(s) <= walk_cost(p, s, w) + p.estimate_of(walk_end(p, s, w)),
    decreases w.len(),
{
    if w.len() > 0 {
        let pre = w.drop_last();
        lemma_consistent_walk(p, s, pre);
        lemma_walk_end_valid(p, s, pre);
        let e = walk_end(p, s, pre);
        assert(p.legal(e).contains(w.last()));
    }
}

/// No walk from the initial state reaching the state numbered `i` costs less
/// than `g`.
spec fn g_optimal<P: HeuristicProblem>(p: &P, i: int, g: int) -> bool {
    forall|w: Seq<Direction>|
        walk_valid(p, p.init(), w) && p.index_of(walk_end(p, p.init(), w)) == i ==> g
            <= #[trigger] walk_cost(p, p.init(), w)
}

/// Node `h` of the arena sits at the end of path `paths[h]`, with its cost.
spec fn node_ok<P: HeuristicProblem>(
    p: &P,
    arena: Seq<Node>,
    paths: Seq<Seq<Direction>>,
    h: int,
) -> bool {
    let n = arena[h];
    &&& walk_valid(p, p.init(), paths[h])
    &&& walk_end(p, p.init(), paths[h]) == n.state
    &&& p.valid(n.state)
    &&& n.cost == walk_cost(p, p.init(), paths[h])
    &&& n.f_cost <= n.cost + p.estimate_of(n.state)
    &&& (h > 0 ==> n.f_cost == n.cost + p.estimate_of(n.state))
}

/// Parent links: every node but the root extends its parent's path by its
/// own move; the root has no move and the empty path.
spec fn chain_ok(arena: Seq<Node>, paths: Seq<Seq<Direction>>) -> bool {
    &&& arena.len() == paths.len()
    &&& arena.len() >= 1
    &&& paths[0] == Seq::<Direction>::empty()
    &&& forall|h: int|
        #![trigger arena[h]]
        0 < h < arena.len() ==> {
            &&& arena[h].parent < h
            &&& arena[h].action is Some
            &&& paths[h] == paths[arena[h].parent as int].push(arena[h].action->Some_0)
        }
}

/// Follows parent links from node `h` back to the root and returns the moves
/// in the order in which they are made.
fn reconstruct(arena: &Vec<Node>, h: usize, Ghost(paths): Ghost<Seq<Seq<Direction>>>) -> (r: Vec<
    Direction,
>)
    requires
        h < arena.len(),
        chain_ok(arena@, paths),
    ensures
        r@ == paths[h as int],
{
    let mut out: Vec<Direction> = Vec::new();
    let mut cur: usize = h;
    while cur > 0
        invariant
            cur < arena.len(),
            h < arena.len(),
            chain_ok(arena@, paths),
            paths[h as int] == paths[cur as int] + out@,
        decreases cur,
    {
        let node = arena[cur];
        assert(arena@[cur as int] == node);
        let a = node.action.unwrap();
        let ghost before = out@;
        out.insert(0, a);
        proof {
            let pp = paths[node.parent as int];
            assert(pp.push(a) + before =~= pp + out@);
        }
        cur = node.parent;
    }
    proof {
        assert(paths[0] + out@ =~= out@);
    }
    out
}

/// Some node of the frontier holds the state numbered `x`, reached at a
/// cost of at most `bound`.
spec fn in_frontier<P: HeuristicProblem>(
    p: &P,
    arena: Seq<Node>,
    frontier: Seq<usize>,
    x: int,
    bound: int,
) -> bool {
    exists|j: int|
        0 <= j < frontier.len() && p.index_of(arena[#[trigger] frontier[j] as int].state) == x
            && arena[frontier[j] as int].cost <= bound
}

/// The state numbered `x` has been expanded, or waits in the frontier at a
/// cost of at most `bound`.
spec fn covered<P: HeuristicProblem>(
    p: &P,
    vset: Set<int>,
    arena: Seq<Node>,
    frontier: Seq<usize>,
    x: int,
    bound: int,
) -> bool {
    vset.contains(x) || in_frontier(p, arena, frontier, x, bound)
}

/// Every successor of the expanded state numbered `i` is covered, at the cost
/// of its expansion plus the move.
spec fn closed_at<P: HeuristicProblem>(
    p: &P,
    vset: Set<int>,
    exp: Map<int, State>,
    gexp: Map<int, int>,
    arena: Seq<Node>,
    frontier: Seq<usize>,
    i: int,
) -> bool {
    forall|a: Direction|
        #[trigger] p.legal(exp[i]).contains(a) ==> covered(
            p,
            vset,
            arena,
            frontier,
            p.index_of(p.next(exp[i], a)) as int,
            gexp[i] + p.step_cost(exp[i], a),
        )
}

proof fn lemma_covered_grow<P: HeuristicProblem>(
    p: &P,
    vset: Set<int>,
    vset2: Set<int>,
    arena: Seq<Node>,
    arena2: Seq<Node>,
    fr: Seq<usize>,
    fr2: Seq<usize>,
    x: int,
    bound: int,
)
    requires
        vset.subset_of(vset2),
        arena.len() <= arena2.len(),
        forall|i: int| 0 <= i < arena.len() ==> arena2[i] == arena[i],
        fr.len() <= fr2.len(),
        forall|j: int| 0 <= j < fr.len() ==> fr2[j] == fr[j] && fr[j] < arena.len(),
        covered(p, vset, arena, fr, x, bound),
    ensures
        covered(p, vset2, arena2, fr2, x, bound),
{
    if !vset.contains(x) {
        let j = choose|j: int|
            0 <= j < fr.len() && p.index_of(arena[#[trigger] fr[j] as int].state) == x
                && arena[fr[j] as int].cost <= bound;
        assert(fr2[j] == fr[j]);
        assert(p.index_of(arena2[fr2[j] as int].state) == x);
    }
}

proof fn lemma_covered_remove<P: HeuristicProblem>(
    p: &P,
    vset: Set<int>,
    arena: Seq<Node>,
    fr: Seq<usize>,
    k: int,
    x: int,
    bound: int,
)
    requires
        0 <= k < fr.len(),
        forall|j: int| 0 <= j < fr.len() ==> fr[j] < arena.len(),
        covered(p, vset, arena, fr, x, bound),
    ensures
        covered(p, vset, arena, fr.update(k, fr.last()).drop_last(), x, bound) || x == p.index_of(
            arena[fr[k] as int].state,
        ),
{
    let fr2 = fr.update(k, fr.last()).drop_last();
    if !vset.contains(x) {
        let j = choose|j: int|
            0 <= j < fr.len() && p.index_of(arena[#[trigger] fr[j] as int].state) == x
                && arena[fr[j] as int].cost <= bound;
        if j != k {
            if j == fr.len() - 1 {
                assert(fr2[k] == fr[j]);
            } else {
                assert(fr2[j] == fr[j]);
            }
        }
    }
}

/// Where the expanded states are closed under moves and hold the initial
/// state, every walk from the initial state ends in an expanded state.
proof fn lemma_closed_walks<P: HeuristicProblem>(
    p: &P,
    vset: Set<int>,
    exp: Map<int, State>,
    w: Seq<Direction>,
)
    requires
        p.wf(),
        walk_valid(p, p.init(), w),
        vset.contains(p.index_of(p.init()) as int),
        forall|i: int| vset.contains(i) ==> p.valid(exp[i]) && p.index_of(exp[i]) == i,
        forall|i: int, a: Direction|
            vset.contains(i) && #[trigger] p.legal(exp[i]).contains(a) ==> vset.contains(
                p.index_of(p.next(exp[i], a)) as int,
            ),
    ensures
        vset.contains(p.index_of(walk_end(p, p.init(), w)) as int),
        exp[p.index_of(walk_end(p, p.init(), w)) as int] == walk_end(p, p.init(), w),
    decreases w.len(),
{
    let e = walk_end(p, p.init(), w);
    lemma_walk_end_valid(p, p.init(), w);
    if w.len() > 0 {
        let pre = w.drop_last();
        lemma_closed_walks(p, vset, exp, pre);
        let ep = walk_end(p, p.init(), pre);
        let i = p.index_of(ep) as int;
        assert(p.legal(exp[i]).contains(w.last()));
    }
    let x = p.index_of(e) as int;
    p.lemma_index_injective(exp[x], e);
}

/// With a consistent estimate, a walk from the initial state to a state not
/// yet expanded is matched by a frontier node whose total estimate is at most
/// the walk's cost plus the estimate at its end.
proof fn lemma_frontier_bound<P: HeuristicProblem>(
    p: &P,
    vset: Set<int>,
    exp: Map<int, State>,
    gexp: Map<int, int>,
    arena: Seq<Node>,
    paths: Seq<Seq<Direction>>,
    fr: Seq<usize>,
    w: Seq<Direction>,
)
    requires
        p.wf(),
        consistent(p),
        walk_valid(p, p.init(), w),
        !vset.contains(p.index_of(walk_end(p, p.init(), w)) as int),
        arena.len() == paths.len(),
        forall|h: int| 0 <= h < arena.len() ==> #[trigger] node_ok(p, arena, paths, h),
        forall|j: int| 0 <= j < fr.len() ==> fr[j] < arena.len(),
        forall|i: int|
            #![trigger vset.contains(i)]
            vset.contains(i) ==> p.valid(exp[i]) && p.index_of(exp[i]) == i && g_optimal(
                p,
                i,
                gexp[i],
            ) && closed_at(p, vset, exp, gexp, arena, fr, i),
        covered(p, vset, arena, fr, p.index_of(p.init()) as int, 0),
    ensures
        exists|j: int|
            0 <= j < fr.len() && arena[#[trigger] fr[j] as int].f_cost <= walk_cost(p, p.init(), w)
                + p.estimate_of(walk_end(p, p.init(), w)),
    decreases w.len(),
{
    let init = p.init();
    let t = walk_end(p, init, w);
    lemma_walk_end_valid(p, init, w);
    if w.len() == 0 {
        let j = choose|j: int|
            0 <= j < fr.len() && p.index_of(arena[#[trigger] fr[j] as int].state) == p.index_of(init)
                && arena[fr[j] as int].cost <= 0;
        assert(node_ok(p, arena, paths, fr[j] as int));
        p.lemma_index_injective(arena[fr[j] as int].state, init);
    } else {
        let pre = w.drop_last();
        let a = w.last();
        let e = walk_end(p, init, pre);
        lemma_walk_end_valid(p, init, pre);
        let ie = p.index_of(e) as int;
        if vset.contains(ie) {
            p.lemma_index_injective(exp[ie], e);
            assert(p.legal(exp[ie]).contains(a));
            assert(gexp[ie] <= walk_cost(p, init, pre));
            let j = choose|j: int|
                0 <= j < fr.len() && p.index_of(arena[#[trigger] fr[j] as int].state) == p.index_of(t)
                    && arena[fr[j] as int].cost <= gexp[ie] + p.step_cost(e, a);
            assert(node_ok(p, arena, paths, fr[j] as int));
            p.lemma_index_injective(arena[fr[j] as int].state, t);
        } else {
            lemma_frontier_bound(p, vset, exp, gexp, arena, paths, fr, pre);
            assert(p.legal(e).contains(a));
            let j = choose|j: int|
                0 <= j < fr.len() && arena[#[trigger] fr[j] as int].f_cost <= walk_cost(p, init, pre)
                    + p.estimate_of(e);
        }
    }
}

/// Best-first search from the problem's initial state.
///
/// Returns a solution whose moves lead legally to a goal, with their summed
/// cost; `NoSolution` only when no goal can be reached at all; and
/// `CostOverflow` only when some path's cost no longer fits in 64 bits. When
/// the initial state is a goal the solution is empty and costs nothing. With
/// a consistent estimate, no walk to a goal has a smaller cost plus estimate
/// at its end than the solution.
pub fn search<P: HeuristicProblem>(p: &P) -> (r: Result<Solution, SearchError>)
    requires
        p.wf(),
    ensures
        r matches Ok(sol) ==> solves(p, sol),
        r matches Err(e) ==> (e == SearchError::NoSolution ==> !goal_reachable(p)),
        r matches Err(e) ==> (e == SearchError::CostOverflow ==> cost_overflows(p)),
        !goal_reachable(p) ==> r is Err,
        goal_reachable(p) && !cost_overflows(p) ==> r is Ok,
        !goal_reachable(p) && !cost_overflows(p) ==> r == Err::<Solution, SearchError>(
            SearchError::NoSolution,
        ),
        p.goal(p.init()) ==> (r matches Ok(sol) && sol.actions@.len() == 0 && sol.cost == 0),
        r matches Ok(sol) ==> (consistent(p) ==> forall|w: Seq<Direction>|
            walk_valid(p, p.init(), w) && p.goal(walk_end(p, p.init(), w)) ==> sol.cost
                + p.estimate_of(sol.state) <= #[trigger] walk_cost(p, p.init(), w) + p.estimate_of(
                walk_end(p, p.init(), w),
            )),
{
    let init = p.initial_state();
    if p.is_goal(&init) {
        let sol = Solution { actions: Vec::new(), state: init, cost: 0 };
        proof {
            assert(walk_end(p, p.init(), sol.actions@) == init);
            if consistent(p) {
                assert forall|w: Seq<Direction>|
                    walk_valid(p, p.init(), w) && p.goal(walk_end(p, p.init(), w)) implies sol.cost
                    + p.estimate_of(sol.state) <= #[trigger] walk_cost(p, p.init(), w)
                    + p.estimate_of(walk_end(p, p.init(), w)) by {
                    lemma_consistent_walk(p, init, w);
                }
            }
        }
        return Ok(sol);
    }
    let n = p.state_count();
    let mut visited: Vec<bool> = Vec::new();
    while visited.len() < n
        invariant
            visited.len() <= n,
            forall|i: int| 0 <= i < visited.len() ==> !visited@[i],
        decreases n - visited.len(),
    {
        visited.push(false);
    }
    let mut arena: Vec<Node> = Vec::new();
    arena.push(Node { state: init, cost: 0, f_cost: 0, action: None, parent: 0 });
    let mut frontier: Vec<usize> = Vec::new();
    frontier.push(0);
    let ghost mut paths: Seq<Seq<Direction>> = seq![Seq::<Direction>::empty()];
    let ghost mut vset: Set<int> = Set::empty();
    let ghost mut exp: Map<int, State> = Map::empty();
    let ghost mut gexp: Map<int, int> = Map::empty();
    proof {
        assert(node_ok(p, arena@, paths, 0));
        assert(p.index_of(arena@[frontier@[0] as int].state) == p.index_of(init));
        lemma_int_range(0, n as int);
    }
    while frontier.len() > 0
        invariant
            p.wf(),
            init == p.init(),
            p.valid(init),
            !p.goal(init),
            n == p.num_states(),
            visited@.len() == n,
            chain_ok(arena@, paths),
            forall|h: int| 0 <= h < arena.len() ==> #[trigger] node_ok(p, arena@, paths, h),
            forall|j: int| 0 <= j < frontier.len() ==> frontier@[j] < arena.len(),
            vset.subset_of(set_int_range(0, n as int)),
            set_int_range(0, n as int).finite(),
            set_int_range(0, n as int).len() == n,
            forall|i: int| 0 <= i < n ==> (visited@[i] <==> vset.contains(i)),
            forall|i: int|
                #![trigger vset.contains(i)]
                vset.contains(i) ==> p.valid(exp[i]) && p.index_of(exp[i]) == i && !p.goal(exp[i])
                    && (consistent(p) ==> g_optimal(p, i, gexp[i])),
            forall|i: int|
                #![trigger vset.contains(i)]
                vset.contains(i) ==> closed_at(p, vset, exp, gexp, arena@, frontier@, i),
            covered(p, vset, arena@, frontier@, p.index_of(init) as int, 0),
            forall|h: int| 0 <= h < arena.len() ==> #[trigger] depth_ok(paths, h, vset.len()),
        decreases 5 * (n - vset.len()) + frontier.len(),
    {
        proof {
            lemma_len_subset(vset, set_int_range(0, n as int));
        }
        let k = best_in_frontier(&arena, &frontier);
        let ghost fr_old = frontier@;
        let h = frontier.swap_remove(k);
        let node = arena[h];
        assert(node_ok(p, arena@, paths, h as int));
        let si = p.state_index(&node.state);
        proof {
            assert forall|x: int, b: int| covered(p, vset, arena@, fr_old, x, b) implies covered(
                p,
                vset,
                arena@,
                frontier@,
                x,
                b,
            ) || x == si by {
                lemma_covered_remove(p, vset, arena@, fr_old, k as int, x, b);
            }
        }
        if visited[si] {
            proof {
                assert forall|i: int| vset.contains(i) implies closed_at(
                    p,
                    vset,
                    exp,
                    gexp,
                    arena@,
                    frontier@,
                    i,
                ) by {
                    assert(closed_at(p, vset, exp, gexp, arena@, fr_old, i));
                }
            }
            continue;
        }
        proof {
            if consistent(p) {
                assert forall|w: Seq<Direction>|
                    walk_valid(p, p.init(), w) && p.index_of(walk_end(p, p.init(), w)) == si implies node.cost
                    + p.estimate_of(node.state) <= #[trigger] walk_cost(p, p.init(), w)
                    + p.estimate_of(walk_end(p, p.init(), w)) || h == 0 by {
                    assert forall|i: int| #[trigger] vset.contains(i) implies g_optimal(
                        p,
                        i,
                        gexp[i],
                    ) && closed_at(p, vset, exp, gexp, arena@, fr_old, i) by {}
                    lemma_frontier_bound(p, vset, exp, gexp, arena@, paths, fr_old, w);
                    let j = choose|j: int|
                        0 <= j < fr_old.len() && arena@[#[trigger] fr_old[j] as int].f_cost
                            <= walk_cost(p, init, w) + p.estimate_of(walk_end(p, init, w));
                    assert(precedes(arena@[fr_old[k as int] as int], arena@[fr_old[j] as int]));
                    lemma_walk_end_valid(p, init, w);
                    p.lemma_index_injective(walk_end(p, init, w), node.state);
                }
            }
        }
        if p.is_goal(&node.state) {
            let actions = reconstruct(&arena, h, Ghost(paths));
            let sol = Solution { actions, state: node.state, cost: node.cost };
            proof {
                assert(walk_end(p, p.init(), sol.actions@) == sol.state);
                if consistent(p) {
                    assert(h != 0) by {
                        if h == 0 {
                            assert(paths[0] == Seq::<Direction>::empty());
                            assert(walk_end(p, init, paths[0]) == init);
                        }
                    }
                    assert forall|w: Seq<Direction>|
                        walk_valid(p, p.init(), w) && p.goal(walk_end(p, p.init(), w)) implies sol.cost
                        + p.estimate_of(sol.state) <= #[trigger] walk_cost(p, p.init(), w)
                        + p.estimate_of(walk_end(p, p.init(), w)) by {
                        let t = walk_end(p, init, w);
                        lemma_walk_end_valid(p, init, w);
                        let it = p.index_of(t) as int;
                        if vset.contains(it) {
                            p.lemma_index_injective(exp[it], t);
                        }
                        assert forall|i: int| #[trigger] vset.contains(i) implies g_optimal(
                            p,
                            i,
                            gexp[i],
                        ) && closed_at(p, vset, exp, gexp, arena@, fr_old, i) by {}
                        lemma_frontier_bound(p, vset, exp, gexp, arena@, paths, fr_old, w);
                        let j = choose|j: int|
                            0 <= j < fr_old.len() && arena@[#[trigger] fr_old[j] as int].f_cost
                                <= walk_cost(p, init, w) + p.estimate_of(t);
                        assert(precedes(arena@[fr_old[k as int] as int], arena@[fr_old[j] as int]));
                    }
                }
            }
            return Ok(sol);
        }
        visited.set(si, true);
        let ghost vset_old = vset;
        proof {
            vset = vset.insert(si as int);
            exp = exp.insert(si as int, node.state);
            gexp = gexp.insert(si as int, node.cost as int);
            if consistent(p) {
                assert forall|w: Seq<Direction>|
                    walk_valid(p, p.init(), w) && p.index_of(walk_end(p, p.init(), w)) == si implies node.cost
                    <= #[trigger] walk_cost(p, p.init(), w) by {
                    if h != 0 {
                        lemma_walk_end_valid(p, init, w);
                        p.lemma_index_injective(walk_end(p, init, w), node.state);
                    }
                }
                assert(g_optimal(p, si as int, gexp[si as int]));
            }
            assert forall|i: int| vset_old.contains(i) implies closed_at(
                p,
                vset,
                exp,
                gexp,
                arena@,
                frontier@,
                i,
            ) by {
                assert(closed_at(p, vset_old, exp, gexp, arena@, fr_old, i));
            }
        }
        proof {
            lemma_len_subset(vset, set_int_range(0, n as int));
            assert(depth_ok(paths, h as int, vset_old.len()));
            assert forall|hh: int| 0 <= hh < arena.len() implies #[trigger] depth_ok(
                paths,
                hh,
                vset.len(),
            ) by {
                assert(depth_ok(paths, hh, vset_old.len()));
            }
        }
        let acts = p.actions(&node.state);
        let ghost fr0 = frontier@;
        let ghost arena0 = arena@;
        let mut t: usize = 0;
        while t < acts.len()
            invariant
                p.wf(),
                init == p.init(),
                p.valid(init),
                !p.goal(init),
                n == p.num_states(),
                visited@.len() == n,
                chain_ok(arena@, paths),
                forall|h: int| 0 <= h < arena.len() ==> #[trigger] node_ok(p, arena@, paths, h),
                forall|j: int| 0 <= j < frontier.len() ==> frontier@[j] < arena.len(),
                vset.subset_of(set_int_range(0, n as int)),
                set_int_range(0, n as int).finite(),
                set_int_range(0, n as int).len() == n,
                vset.finite(),
                vset.len() == vset_old.len() + 1,
                forall|i: int| 0 <= i < n ==> (visited@[i] <==> vset.contains(i)),
                forall|i: int|
                    #![trigger vset.contains(i)]
                    vset.contains(i) ==> p.valid(exp[i]) && p.index_of(exp[i]) == i && !p.goal(exp[i])
                        && (consistent(p) ==> g_optimal(p, i, gexp[i])),
                forall|i: int|
                    #![trigger vset.contains(i)]
                    vset.contains(i) && i != si ==> closed_at(p, vset, exp, gexp, arena@, frontier@, i),
                covered(p, vset, arena@, frontier@, p.index_of(init) as int, 0),
                vset.contains(si as int),
                exp[si as int] == node.state,
                gexp[si as int] == node.cost,
                forall|hh: int| 0 <= hh < arena.len() ==> #[trigger] depth_ok(paths, hh, vset.len()),
                paths[h as int].len() + 1 <= vset.len(),
                vset.len() <= n,
                p.valid(node.state),
                h < arena0.len(),
                arena0[h as int] == node,
                arena0.len() <= arena.len(),
                forall|i: int| 0 <= i < arena0.len() ==> arena@[i] == arena0[i],
                fr0.len() <= frontier.len(),
                forall|j: int| 0 <= j < fr0.len() ==> frontier@[j] == fr0[j],
                frontier.len() == fr0.len() + t,
                fr0.len() + 1 == fr_old.len(),
                t <= acts.len(),
                acts@ == p.legal(node.state),
                acts.len() <= 4,
                forall|j: int|
                    0 <= j < t ==> covered(
                        p,
                        vset,
                        arena@,
                        frontier@,
                        p.index_of(p.next(node.state, #[trigger] acts@[j])) as int,
                        node.cost + p.step_cost(node.state, acts@[j]),
                    ),
            decreases acts.len() - t,
        {
            let a = acts[t];
            assert(acts@[t as int] == a);
            assert(p.legal(node.state).contains(a));
            let next = p.result(&node.state, a);
            proof {
                p.lemma_next_valid(node.state, a);
            }
            let c = p.cost(&node.state, a);
            let ghost w = paths[h as int].push(a);
            proof {
                assert(w.drop_last() =~= paths[h as int]);
                assert(arena@[h as int] == node);
                assert(node_ok(p, arena@, paths, h as int));
                assert(walk_valid(p, init, w));
                assert(walk_end(p, init, w) == next);
                assert(walk_cost(p, init, w) == node.cost + c);
            }
            let g = match node.cost.checked_add(c) {
                Some(g) => g,
                None => {
                    proof {
                        assert(w.len() <= p.num_states());
                        assert(walk_cost(p, p.init(), w) + p.estimate_of(walk_end(p, p.init(), w))
                            > u64::MAX);
                    }
                    return Err(SearchError::CostOverflow);
                },
            };
            let est = p.estimate(&next);
            let f = match g.checked_add(est) {
                Some(f) => f,
                None => {
                    proof {
                        assert(w.len() <= p.num_states());
                        assert(walk_cost(p, p.init(), w) + p.estimate_of(walk_end(p, p.init(), w))
                            > u64::MAX);
                    }
                    return Err(SearchError::CostOverflow);
                },
            };
            let ghost arena_before = arena@;
            let ghost fr_before = frontier@;
            let ghost paths_before = paths;
            let m = arena.len();
            arena.push(Node { state: next, cost: g, f_cost: f, action: Some(a), parent: h });
            frontier.push(m);
            proof {
                paths = paths.push(w);
                assert forall|hh: int| 0 <= hh < arena.len() implies #[trigger] node_ok(
                    p,
                    arena@,
                    paths,
                    hh,
                ) by {
                    if hh < m {
                        assert(node_ok(p, arena_before, paths_before, hh));
                        assert(arena@[hh] == arena_before[hh]);
                        assert(paths[hh] == paths_before[hh]);
                    } else {
                        assert(arena@[hh].state == next);
                    }
                }
                assert forall|hh: int| 0 < hh < arena.len() implies {
                    &&& (#[trigger] arena@[hh]).parent < hh
                    &&& arena@[hh].action is Some
                    &&& paths[hh] == paths[arena@[hh].parent as int].push(arena@[hh].action->Some_0)
                } by {
                    if hh < m {
                        assert(arena@[hh] == arena_before[hh]);
                    }
                }
                assert(chain_ok(arena@, paths));
                assert forall|hh: int| 0 <= hh < arena.len() implies #[trigger] depth_ok(
                    paths,
                    hh,
                    vset.len(),
                ) by {
                    if hh < m {
                        assert(depth_ok(paths_before, hh, vset.len()));
                    }
                }
                assert forall|x: int, b: int| covered(p, vset, arena_before, fr_before, x, b) implies covered(
                    p,
                    vset,
                    arena@,
                    frontier@,
                    x,
                    b,
                ) by {
                    lemma_covered_grow(p, vset, vset, arena_before, arena@, fr_before, frontier@, x, b);
                }
                assert(frontier@[frontier.len() - 1] == m);
                assert(p.index_of(arena@[frontier@[frontier.len() - 1] as int].state) == p.index_of(
                    next,
                ));
                assert(covered(p, vset, arena@, frontier@, p.index_of(next) as int, node.cost + c));
                assert forall|i: int| vset.contains(i) && i != si implies closed_at(
                    p,
                    vset,
                    exp,
                    gexp,
                    arena@,
                    frontier@,
                    i,
                ) by {
                    assert(closed_at(p, vset, exp, gexp, arena_before, fr_before, i));
                }
                assert forall|j: int| 0 <= j < t + 1 implies covered(
                    p,
                    vset,
                    arena@,
                    frontier@,
                    p.index_of(p.next(node.state, #[trigger] acts@[j])) as int,
                    node.cost + p.step_cost(node.state, acts@[j]),
                ) by {
                    if j < t {
                        assert(covered(
                            p,
                            vset,
                            arena_before,
                            fr_before,
                            p.index_of(p.next(node.state, acts@[j])) as int,
                            node.cost + p.step_cost(node.state, acts@[j]),
                        ));
                    }
                }
            }
            t = t + 1;
        }
        proof {
            assert forall|a: Direction| #[trigger] p.legal(exp[si as int]).contains(a) implies covered(
                p,
                vset,
                arena@,
                frontier@,
                p.index_of(p.next(exp[si as int], a)) as int,
                gexp[si as int] + p.step_cost(exp[si as int], a),
            ) by {
                let j = choose|j: int| 0 <= j < acts@.len() && acts@[j] == a;
            }
            assert(closed_at(p, vset, exp, gexp, arena@, frontier@, si as int));
        }
    }
    proof {
        assert forall|i: int, a: Direction|
            vset.contains(i) && #[trigger] p.legal(exp[i]).contains(a) implies vset.contains(
            p.index_of(p.next(exp[i], a)) as int,
        ) by {
            assert(closed_at(p, vset, exp, gexp, arena@, frontier@, i));
        }
        assert forall|w: Seq<Direction>| walk_valid(p, p.init(), w) implies !p.goal(
            #[trigger] walk_end(p, p.init(), w),
        ) by {
            lemma_closed_walks(p, vset, exp, w);
        }
    }
    Err(SearchError::NoSolution)
}

} // verus!
