//! The agent's partially known grid: cells it has discovered, the four moves,
//! and the cost of a move.
use vstd::prelude::*;
use crate::storage::Position;

verus! {

/// A grid-relative move. `Up` decreases the row, `Left` decreases the column.
#[derive(Debug, Clone, Copy, PartialEq, Eq, Structural, Hash)]
pub enum Direction {
    Up,
    Down,
    Left,
    Right,
}

/// Row offset of a move.
pub open spec fn row_delta(d: Direction) -> int {
    match d {
        Direction::Up => -1,
        Direction::Down => 1,
        _ => 0,
    }
}

/// Column offset of a move.
pub open spec fn col_delta(d: Direction) -> int {
    match d {
        Direction::Left => -1,
        Direction::Right => 1,
        _ => 0,
    }
}

impl Direction {
    /// The row offset of this move.
    pub fn dx(&self) -> (r: i8)
        ensures
            r == row_delta(*self),
    {
        match self {
            Direction::Up => -1,
            Direction::Down => 1,
            _ => 0,
        }
    }

    /// The column offset of this move.
    pub fn dy(&self) -> (r: i8)
        ensures
            r == col_delta(*self),
    {
        match self {
            Direction::Left => -1,
            Direction::Right => 1,
            _ => 0,
        }
    }
}

/// The four moves in the order in which they are tried.
pub open spec fn all_directions() -> Seq<Direction> {
    seq![Direction::Up, Direction::Down, Direction::Left, Direction::Right]
}

/// A snapshot of a discovered cell. `step_cost` is the cost of entering the
/// cell on flat ground under the current weather; `elevation` adds the square
/// of any climb onto it.
#[derive(Debug, Clone, Copy, PartialEq, Eq, Structural)]
pub struct Cell {
    pub walkable: bool,
    pub step_cost: u32,
    pub elevation: u32,
    pub content: usize,
    pub quantity: usize,
}

impl Cell {
    pub fn new(walkable: bool, step_cost: u32, elevation: u32, content: usize, quantity: usize) -> (r: Cell)
        ensures
            r == (Cell { walkable, step_cost, elevation, content, quantity }),
    {
        Cell { walkable, step_cost, elevation, content, quantity }
    }
}

/// The cost of moving from a cell onto a neighbouring one: the target's step
/// cost plus the square of the climb, if any.
pub open spec fn move_cost(from: Cell, to: Cell) -> nat {
    if to.elevation > from.elevation {
        (to.step_cost + (to.elevation - from.elevation) * (to.elevation - from.elevation)) as nat
    } else {
        to.step_cost as nat
    }
}

/// Executable form of `move_cost`.
pub fn cell_move_cost(from: &Cell, to: &Cell) -> (r: u64)
    ensures
        r == move_cost(*from, *to),
{
    if to.elevation > from.elevation {
        let gain: u64 = (to.elevation - from.elevation) as u64;
        proof {
            assert(gain * gain <= 0xffff_fffe_0000_0001u64) by (nonlinear_arith)
                requires gain <= 0xffff_ffffu64;
        }
        to.step_cost as u64 + gain * gain
    } else {
        to.step_cost as u64
    }
}

/// The agent's known map: a rectangle of optional cells, `None` where the
/// cell has not been discovered.
#[derive(Debug, Clone)]
pub struct KnownMap {
    pub cells: Vec<Vec<Option<Cell>>>,
}

impl KnownMap {
    pub open spec fn rows(&self) -> nat {
        self.cells@.len()
    }

    pub open spec fn cols(&self) -> nat {
        if self.cells@.len() == 0 {
            0
        } else {
            self.cells@[0]@.len()
        }
    }

    /// Every row has the same length, and the number of cells fits in `usize`.
    pub open spec fn wf(&self) -> bool {
        &&& forall|r: int| 0 <= r < self.cells@.len() ==> #[trigger] self.cells@[r]@.len() == self.cols()
        &&& self.rows() * self.cols() <= usize::MAX
    }

    pub open spec fn in_bounds(&self, p: Position) -> bool {
        p.row < self.rows() && p.col < self.cols()
    }

    pub open spec fn cell(&self, p: Position) -> Option<Cell> {
        self.cells@[p.row as int]@[p.col as int]
    }

    /// The cell at `p` is inside the map and has been discovered.
    pub open spec fn known(&self, p: Position) -> bool {
        self.in_bounds(p) && self.cell(p) is Some
    }

    pub open spec fn known_cell(&self, p: Position) -> Cell {
        self.cell(p)->Some_0
    }

    /// The cell at `p` is discovered and can be walked on.
    pub open spec fn walkable(&self, p: Position) -> bool {
        self.known(p) && self.known_cell(p).walkable
    }

    /// The neighbour of `p` in direction `d`, when it lies inside the map.
    pub open spec fn neighbor(&self, p: Position, d: Direction) -> Option<Position> {
        let r = p.row + row_delta(d);
        let c = p.col + col_delta(d);
        if 0 <= r < self.rows() && 0 <= c < self.cols() {
            Some(Position { row: r as usize, col: c as usize })
        } else {
            None
        }
    }

    /// A move in direction `d` from `p` leads onto a discovered walkable cell.
    pub open spec fn can_move(&self, p: Position, d: Direction) -> bool {
        &&& self.neighbor(p, d) is Some
        &&& self.walkable(self.neighbor(p, d)->Some_0)
    }

    /// The moves allowed from `p`, in the order Up, Down, Left, Right.
    pub open spec fn moves(&self, p: Position) -> Seq<Direction> {
        all_directions().filter(|d: Direction| self.can_move(p, d))
    }

    /// Cost of the move `d` from `p`.
    pub open spec fn step_cost(&self, p: Position, d: Direction) -> nat {
        move_cost(self.known_cell(p), self.known_cell(self.neighbor(p, d)->Some_0))
    }

    pub fn num_rows(&self) -> (r: usize)
        ensures
            r == self.rows(),
    {
        self.cells.len()
    }

    pub fn num_cols(&self) -> (r: usize)
        ensures
            r == self.cols(),
    {
        if self.cells.len() == 0 {
            0
        } else {
            self.cells[0].len()
        }
    }

    /// Checks `wf`: every row as long as the first, and the cell count fits.
    pub fn is_well_formed(&self) -> (r: bool)
        ensures
            r == self.wf(),
    {
        let cols = self.num_cols();
        let mut i: usize = 0;
        while i < self.cells.len()
            invariant
                i <= self.cells@.len(),
                cols == self.cols(),
                forall|r: int| 0 <= r < i ==> #[trigger] self.cells@[r]@.len() == cols,
            decreases self.cells@.len() - i,
        {
            if self.cells[i].len() != cols {
                return false;
            }
            i = i + 1;
        }
        self.cells.len().checked_mul(cols).is_some()
    }

    /// The cell at `p`, if `p` is inside the map (`None` also where the cell
    /// is undiscovered).
    pub fn get(&self, p: Position) -> (r: Option<Cell>)
        requires
            self.wf(),
        ensures
            self.in_bounds(p) ==> r == self.cell(p),
            !self.in_bounds(p) ==> r is None,
    {
        if p.row < self.cells.len() && p.col < self.num_cols() {
            self.cells[p.row][p.col]
        } else {
            None
        }
    }

    /// Executable form of `neighbor`.
    pub fn neighbor_of(&self, p: Position, d: Direction) -> (r: Option<Position>)
        requires
            self.wf(),
        ensures
            r == self.neighbor(p, d),
    {
        let rows = self.num_rows();
        let cols = self.num_cols();
        match d {
            Direction::Up => if p.row >= 1 && p.row - 1 < rows && p.col < cols {
                Some(Position::new(p.row - 1, p.col))
            } else {
                None
            },
            Direction::Down => if p.row < usize::MAX && p.row + 1 < rows && p.col < cols {
                Some(Position::new(p.row + 1, p.col))
            } else {
                None
            },
            Direction::Left => if p.col >= 1 && p.row < rows && p.col - 1 < cols {
                Some(Position::new(p.row, p.col - 1))
            } else {
                None
            },
            Direction::Right => if p.col < usize::MAX && p.row < rows && p.col + 1 < cols {
                Some(Position::new(p.row, p.col + 1))
            } else {
                None
            },
        }
    }

    /// Executable form of `can_move`.
    pub fn can_move_to(&self, p: Position, d: Direction) -> (r: bool)
        requires
            self.wf(),
        ensures
            r == self.can_move(p, d),
    {
        match self.neighbor_of(p, d) {
            Some(q) => match self.get(q) {
                Some(c) => c.walkable,
                None => false,
            },
            None => false,
        }
    }

    /// The moves allowed from `p`: those onto a discovered walkable cell.
    pub fn legal_moves(&self, p: Position) -> (r: Vec<Direction>)
        requires
            self.wf(),
        ensures
            r@ == self.moves(p),
            r.len() <= 4,
    {
        let mut out: Vec<Direction> = Vec::new();
        let ghost all = all_directions();
        let ghost f = |d: Direction| self.can_move(p, d);
        let dirs = [Direction::Up, Direction::Down, Direction::Left, Direction::Right];
        let mut i: usize = 0;
        while i < 4
            invariant
                i <= 4,
                dirs@ == all,
                all == all_directions(),
                f == (|d: Direction| self.can_move(p, d)),
                self.wf(),
                out@ == all.take(i as int).filter(f),
                out.len() <= i,
            decreases 4 - i,
        {
            let d = dirs[i];
            proof {
                reveal(Seq::filter);
                assert(all.take(i as int + 1).drop_last() =~= all.take(i as int));
            }
            if self.can_move_to(p, d) {
                out.push(d);
            }
            i = i + 1;
        }
        proof {
            assert(all.take(4) =~= all);
        }
        out
    }

    /// Executable form of `step_cost`.
    pub fn move_cost_of(&self, p: Position, d: Direction) -> (r: u64)
        requires
            self.wf(),
            self.known(p),
            self.can_move(p, d),
        ensures
            r == self.step_cost(p, d),
    {
        let q = self.neighbor_of(p, d).unwrap();
        let from = self.get(p).unwrap();
        let to = self.get(q).unwrap();
        cell_move_cost(&from, &to)
    }
}

/// A neighbour lies one step away in the direction of the move.
pub proof fn lemma_neighbor_coords(map: &KnownMap, p: Position, d: Direction)
    requires
        map.wf(),
        map.neighbor(p, d) is Some,
    ensures
        map.neighbor(p, d)->Some_0.row == p.row + row_delta(d),
        map.neighbor(p, d)->Some_0.col == p.col + col_delta(d),
{
    let (rows, cols) = (map.rows() as int, map.cols() as int);
    assert(rows <= rows * cols && cols <= rows * cols) by (nonlinear_arith)
        requires
            rows >= 1,
            cols >= 1,
    ;
}

/// A move listed by `moves` can be made.
pub proof fn lemma_listed_move(map: &KnownMap, p: Position, d: Direction)
    requires
        map.moves(p).contains(d),
    ensures
        map.can_move(p, d),
{
    let f = |d: Direction| map.can_move(p, d);
    let i = choose|i: int| 0 <= i < all_directions().filter(f).len() && all_directions().filter(f)[i] == d;
    all_directions().lemma_filter_pred(f, i);
}

/// Manhattan distance between two positions.
pub open spec fn manhattan(a: Position, b: Position) -> nat {
    let dr: int = a.row - b.row;
    let dc: int = a.col - b.col;
    ((if dr >= 0 { dr } else { -dr }) + (if dc >= 0 { dc } else { -dc })) as nat
}

/// Executable Manhattan distance; it fits because both positions lie inside
/// a well-formed map.
pub fn manhattan_distance(map: &KnownMap, a: Position, b: Position) -> (r: u64)
    requires
        map.wf(),
        map.in_bounds(a),
        map.in_bounds(b),
    ensures
        r == manhattan(a, b),
{
    let dr: usize = if a.row >= b.row { a.row - b.row } else { b.row - a.row };
    let dc: usize = if a.col >= b.col { a.col - b.col } else { b.col - a.col };
    proof {
        let rows = map.rows();
        let cols = map.cols();
        assert(rows + cols <= rows * cols + 1) by (nonlinear_arith)
            requires rows >= 1, cols >= 1;
    }
    (dr + dc) as u64
}

} // verus!
