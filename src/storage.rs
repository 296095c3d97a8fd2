//! Records of discovered cells: where they are, what they hold, and the
//! destination they are assigned to once the load is balanced.
use vstd::prelude::*;

verus! {

/// A cell coordinate: row and column into the grid, ordered row-major.
#[derive(Debug, Clone, Copy, PartialEq, Eq, Structural, PartialOrd, Ord, Hash)]
pub struct Position {
    pub row: usize,
    pub col: usize,
}

impl Position {
    pub fn new(row: usize, col: usize) -> (r: Position)
        ensures
            r.row == row,
            r.col == col,
    {
        Position { row, col }
    }

    /// Returns the row of the coordinate.
    pub fn get_row(&self) -> (r: usize)
        ensures
            r == self.row,
    {
        self.row
    }

    /// Returns the column of the coordinate.
    pub fn get_col(&self) -> (r: usize)
        ensures
            r == self.col,
    {
        self.col
    }
}

/// Row-major strict order on positions: first by row, then by column.
pub open spec fn position_lt(a: Position, b: Position) -> bool {
    a.row < b.row || (a.row == b.row && a.col < b.col)
}

/// The weight coefficient of a content category: how heavily one unit of it
/// counts when the load is split across destinations.
pub open spec fn coefficient_of(content: usize) -> u32 {
    if content == 0 {
        1
    } else if content == 1 {
        2
    } else if content == 10 {
        5
    } else {
        0
    }
}

/// A discovered cell that holds wanted content, with the destination it is
/// assigned to.
#[derive(Debug, Clone)]
pub struct StorageInfo {
    pub position: Position,
    pub content: usize,
    pub quantity: usize,
    pub coefficient: u32,
    pub market_index: usize,
}

impl StorageInfo {
    pub fn new(position: Position, content: usize, quantity: usize) -> (r: StorageInfo)
        ensures
            r.position == position,
            r.content == content,
            r.quantity == quantity,
            r.coefficient == coefficient_of(content),
            r.market_index == 0,
    {
        let coefficient: u32 = if content == 0 {
            1
        } else if content == 1 {
            2
        } else if content == 10 {
            5
        } else {
            0
        };
        StorageInfo { position, content, quantity, coefficient, market_index: 0 }
    }

    pub fn get_position(&self) -> (r: Position)
        ensures
            r == self.position,
    {
        self.position
    }

    pub fn get_content(&self) -> (r: usize)
        ensures
            r == self.content,
    {
        self.content
    }

    pub fn get_quantity(&self) -> (r: usize)
        ensures
            r == self.quantity,
    {
        self.quantity
    }

    pub fn get_coefficient(&self) -> (r: u32)
        ensures
            r == self.coefficient,
    {
        self.coefficient
    }

    pub fn get_market_index_mut(&mut self) -> (r: &mut usize)
        ensures
            *r == old(self).market_index,
            final(self).market_index == *final(r),
            final(self).position == old(self).position,
            final(self).content == old(self).content,
            final(self).quantity == old(self).quantity,
            final(self).coefficient == old(self).coefficient,
    {
        &mut self.market_index
    }

    pub fn get_market_index(&self) -> (r: usize)
        ensures
            r == self.market_index,
    {
        self.market_index
    }

    pub fn set_market_index(&mut self, market_index: usize)
        ensures
            final(self).market_index == market_index,
            final(self).position == old(self).position,
            final(self).content == old(self).content,
            final(self).quantity == old(self).quantity,
            final(self).coefficient == old(self).coefficient,
    {
        self.market_index = market_index;
    }

    /// The load this record contributes: its quantity times its coefficient,
    /// or `None` where that does not fit in 32 bits.
    pub fn weight(&self) -> (r: Option<u32>)
        ensures
            r matches Some(w) ==> w == self.quantity * self.coefficient,
            r is None <==> self.quantity * self.coefficient > u32::MAX,
    {
        if self.quantity > u32::MAX as usize {
            if self.coefficient == 0 {
                return Some(0);
            }
            proof {
                assert(self.quantity * self.coefficient >= self.quantity) by (nonlinear_arith)
                    requires self.coefficient >= 1;
            }
            return None;
        }
        let q = self.quantity as u64;
        let c = self.coefficient as u64;
        proof {
            assert(q * c <= (u32::MAX as u64) * (u32::MAX as u64)) by (nonlinear_arith)
                requires q <= u32::MAX, c <= u32::MAX;
        }
        let w = q * c;
        if w > u32::MAX as u64 {
            None
        } else {
            Some(w as u32)
        }
    }
}

/// Records are the same record when they stand at the same position.
impl PartialEq for StorageInfo {
    fn eq(&self, other: &StorageInfo) -> (r: bool)
        ensures
            r == (self.position == other.position),
    {
        self.position == other.position
    }
}

impl vstd::std_specs::cmp::PartialEqSpecImpl for StorageInfo {
    open spec fn obeys_eq_spec() -> bool {
        true
    }

    open spec fn eq_spec(&self, other: &StorageInfo) -> bool {
        self.position == other.position
    }
}

/// The load of every record, in order: quantity times coefficient. `None`
/// when some load does not fit in 32 bits.
pub fn storage_weights(targets: &Vec<StorageInfo>) -> (r: Option<Vec<u32>>)
    ensures
        r matches Some(w) ==> w@.len() == targets@.len() && forall|i: int|
            0 <= i < targets@.len() ==> #[trigger] w@[i] == targets@[i].quantity
                * targets@[i].coefficient,
        r is None <==> exists|i: int|
            0 <= i < targets@.len() && #[trigger] targets@[i].quantity * targets@[i].coefficient
                > u32::MAX,
{
    let mut weights: Vec<u32> = Vec::new();
    let mut i: usize = 0;
    while i < targets.len()
        invariant
            i <= targets@.len(),
            weights@.len() == i,
            forall|k: int|
                0 <= k < i ==> #[trigger] weights@[k] == targets@[k].quantity * targets@[k].coefficient,
            forall|k: int| 0 <= k < i ==> #[trigger] targets@[k].quantity * targets@[k].coefficient <= u32::MAX,
        decreases targets@.len() - i,
    {
        match targets[i].weight() {
            Some(w) => weights.push(w),
            None => {
                return None;
            },
        }
        i = i + 1;
    }
    Some(weights)
}

/// Records the destination of every record: `assignment[i]` for `targets[i]`.
pub fn assign_markets(targets: &mut Vec<StorageInfo>, assignment: &Vec<usize>)
    requires
        assignment@.len() == old(targets)@.len(),
    ensures
        final(targets)@.len() == old(targets)@.len(),
        forall|i: int|
            0 <= i < old(targets)@.len() ==> {
                &&& (#[trigger] final(targets)@[i]).market_index == assignment@[i]
                &&& final(targets)@[i].position == old(targets)@[i].position
                &&& final(targets)@[i].content == old(targets)@[i].content
                &&& final(targets)@[i].quantity == old(targets)@[i].quantity
                &&& final(targets)@[i].coefficient == old(targets)@[i].coefficient
            },
{
    let ghost before = targets@;
    let mut i: usize = 0;
    while i < targets.len()
        invariant
            assignment@.len() == before.len(),
            targets@.len() == before.len(),
            i <= before.len(),
            forall|k: int|
                0 <= k < before.len() ==> {
                    &&& (#[trigger] targets@[k]).market_index == (if k < i {
                        assignment@[k]
                    } else {
                        before[k].market_index
                    })
                    &&& targets@[k].position == before[k].position
                    &&& targets@[k].content == before[k].content
                    &&& targets@[k].quantity == before[k].quantity
                    &&& targets@[k].coefficient == before[k].coefficient
                },
        decreases before.len() - i,
    {
        let t = &targets[i];
        let updated = StorageInfo {
            position: t.position,
            content: t.content,
            quantity: t.quantity,
            coefficient: t.coefficient,
            market_index: assignment[i],
        };
        targets.set(i, updated);
        i = i + 1;
    }
}

} // verus!
