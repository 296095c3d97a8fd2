//! From the known map to a distribution plan: the cells holding wanted
//! content become storage records, the markets become destinations, and the
//! partition solver assigns each record a market.
use vstd::prelude::*;
use crate::grid::KnownMap;
use crate::partition::{prefix_sum, PartitioningProblem};
use crate::storage::{
    assign_markets, coefficient_of, position_lt, storage_weights, Position, StorageInfo,
};

verus! {

/// The kinds of cell a survey lists.
#[derive(Debug, Clone, Copy, PartialEq, Eq, Structural)]
pub enum CellKind {
    /// A cell holding one of the wanted contents.
    Target,
    /// A market that holds no wanted content.
    Market,
    /// A bank that is neither a market nor wanted.
    Bank,
}

/// The discovered cell at `p` is of kind `kind`.
pub open spec fn is_kind(
    map: &KnownMap,
    p: Position,
    kind: CellKind,
    desired: Seq<usize>,
    market: usize,
    bank: usize,
) -> bool {
    map.known(p) && {
        let content = map.known_cell(p).content;
        match kind {
            CellKind::Target => desired.contains(content),
            CellKind::Market => !desired.contains(content) && content == market,
            CellKind::Bank => !desired.contains(content) && content != market && content == bank,
        }
    }
}

/// `p` lies inside the map and before the cursor `(r, c)` in row-major order.
pub open spec fn before_cursor(map: &KnownMap, p: Position, r: int, c: int) -> bool {
    map.in_bounds(p) && (p.row < r || (p.row == r && p.col < c))
}

/// `list` holds, in row-major order, exactly the cells of kind `kind` that
/// lie before the cursor `(r, c)`.
pub open spec fn scanned(
    list: Seq<Position>,
    map: &KnownMap,
    kind: CellKind,
    desired: Seq<usize>,
    market: usize,
    bank: usize,
    r: int,
    c: int,
) -> bool {
    &&& forall|i: int|
        0 <= i < list.len() ==> is_kind(map, #[trigger] list[i], kind, desired, market, bank)
            && before_cursor(map, list[i], r, c)
    &&& forall|i: int, j: int|
        0 <= i < j < list.len() ==> position_lt(#[trigger] list[i], #[trigger] list[j])
    &&& forall|p: Position|
        is_kind(map, p, kind, desired, market, bank) && #[trigger] before_cursor(map, p, r, c)
            ==> list.contains(p)
}

/// The storage record made for the discovered cell at `p`.
pub open spec fn record_at(map: &KnownMap, p: Position) -> StorageInfo {
    StorageInfo {
        position: p,
        content: map.known_cell(p).content,
        quantity: map.known_cell(p).quantity,
        coefficient: coefficient_of(map.known_cell(p).content),
        market_index: 0,
    }
}

fn contains_content(desired: &Vec<usize>, x: usize) -> (r: bool)
    ensures
        r == desired@.contains(x),
{
    let mut i: usize = 0;
    while i < desired.len()
        invariant
            i <= desired@.len(),
            forall|k: int| 0 <= k < i ==> desired@[k] != x,
        decreases desired@.len() - i,
    {
        if desired[i] == x {
            assert(desired@[i as int] == x);
            return true;
        }
        i = i + 1;
    }
    false
}

/// The discovered cells of kind `kind`, in row-major order.
pub fn scan_cells(map: &KnownMap, kind: CellKind, desired: &Vec<usize>, market: usize, bank: usize) -> (r:
    Vec<Position>)
    requires
        map.wf(),
    ensures
        scanned(r@, map, kind, desired@, market, bank, map.rows() as int, 0),
{
    let rows = map.num_rows();
    let cols = map.num_cols();
    let mut list: Vec<Position> = Vec::new();
    let mut r: usize = 0;
    while r < rows
        invariant
            map.wf(),
            rows == map.rows(),
            cols == map.cols(),
            r <= rows,
            scanned(list@, map, kind, desired@, market, bank, r as int, 0),
        decreases rows - r,
    {
        let mut c: usize = 0;
        while c < cols
            invariant
                map.wf(),
                rows == map.rows(),
                cols == map.cols(),
                r < rows,
                c <= cols,
                scanned(list@, map, kind, desired@, market, bank, r as int, c as int),
            decreases cols - c,
        {
            let p = Position::new(r, c);
            let keep = match map.get(p) {
                Some(cell) => {
                    let wanted = contains_content(desired, cell.content);
                    match kind {
                        CellKind::Target => wanted,
                        CellKind::Market => !wanted && cell.content == market,
                        CellKind::Bank => !wanted && cell.content != market && cell.content == bank,
                    }
                },
                None => false,
            };
            let ghost before = list@;
            if keep {
                list.push(p);
            }
            proof {
                assert forall|q: Position|
                    is_kind(map, q, kind, desired@, market, bank) && #[trigger] before_cursor(
                        map,
                        q,
                        r as int,
                        c + 1,
                    ) implies list@.contains(q) by {
                    if q != p {
                        assert(before_cursor(map, q, r as int, c as int));
                        assert(before.contains(q));
                        let i = choose|i: int| 0 <= i < before.len() && before[i] == q;
                        assert(list@[i] == q);
                    } else {
                        assert(list@[list@.len() - 1] == p);
                    }
                }
                assert forall|i: int| 0 <= i < list@.len() implies is_kind(
                    map,
                    #[trigger] list@[i],
                    kind,
                    desired@,
                    market,
                    bank,
                ) && before_cursor(map, list@[i], r as int, c + 1) by {
                    if i < before.len() {
                        assert(list@[i] == before[i]);
                    }
                }
                assert forall|i: int, j: int| 0 <= i < j < list@.len() implies position_lt(
                    #[trigger] list@[i],
                    #[trigger] list@[j],
                ) by {
                    assert(list@[i] == before[i]);
                    if j < before.len() {
                        assert(list@[j] == before[j]);
                    } else {
                        assert(before_cursor(map, before[i], r as int, c as int));
                    }
                }
            }
            c = c + 1;
        }
        proof {
            assert forall|q: Position|
                is_kind(map, q, kind, desired@, market, bank) && #[trigger] before_cursor(
                    map,
                    q,
                    r + 1,
                    0,
                ) implies list@.contains(q) by {
                assert(before_cursor(map, q, r as int, cols as int));
            }
            assert forall|i: int| 0 <= i < list@.len() implies is_kind(
                map,
                #[trigger] list@[i],
                kind,
                desired@,
                market,
                bank,
            ) && before_cursor(map, list@[i], r + 1, 0) by {
                assert(before_cursor(map, list@[i], r as int, cols as int));
            }
        }
        r = r + 1;
    }
    list
}

/// A storage record for every discovered cell holding one of the `desired`
/// contents, in row-major order.
pub fn discover_targets(map: &KnownMap, desired: &Vec<usize>) -> (r: Vec<StorageInfo>)
    requires
        map.wf(),
    ensures
        exists|cells: Seq<Position>|
            scanned(cells, map, CellKind::Target, desired@, 0, 0, map.rows() as int, 0)
                && r@.len() == cells.len() && forall|i: int|
                0 <= i < cells.len() ==> #[trigger] r@[i] == record_at(map, cells[i]),
{
    let cells = scan_cells(map, CellKind::Target, desired, 0, 0);
    let mut targets: Vec<StorageInfo> = Vec::new();
    let mut i: usize = 0;
    while i < cells.len()
        invariant
            map.wf(),
            scanned(cells@, map, CellKind::Target, desired@, 0, 0, map.rows() as int, 0),
            i <= cells@.len(),
            targets@.len() == i,
            forall|k: int| 0 <= k < i ==> #[trigger] targets@[k] == record_at(map, cells@[k]),
        decreases cells@.len() - i,
    {
        let p = cells[i];
        assert(is_kind(map, cells@[i as int], CellKind::Target, desired@, 0, 0));
        let cell = map.get(p).unwrap();
        let record = StorageInfo::new(p, cell.content, cell.quantity);
        targets.push(record);
        i = i + 1;
    }
    targets
}

/// Population size used when distributing the collected load.
pub const DISTRIBUTION_POP_SIZE: usize = 100;

/// Generations per run used when distributing the collected load.
pub const DISTRIBUTION_GENERATIONS: u32 = 1000;

/// Crossover chance, in parts per million.
pub const DISTRIBUTION_CX_PROB: u32 = 800_000;

/// Mutation chance, in parts per million.
pub const DISTRIBUTION_MUT_PROB: u32 = 220_000;

/// Gene redraw chance, in parts per million.
pub const DISTRIBUTION_FLIP_PROB: u32 = 85_000;

/// Independent runs.
pub const DISTRIBUTION_REPEATS: u32 = 5;

/// Why the collected load could not be distributed.
#[derive(Debug, Clone, Copy, PartialEq, Eq, Structural)]
pub enum DistributionError {
    /// No market is known to take the load.
    NoMarkets,
    /// A record's load does not fit in 32 bits, or the total in 64.
    LoadTooLarge,
}

/// The loads of `targets`, each its quantity times its coefficient.
pub open spec fn loads(targets: Seq<StorageInfo>) -> Seq<u32> {
    Seq::new(targets.len(), |i: int| (targets[i].quantity * targets[i].coefficient) as u32)
}

/// Every record's load fits in 32 bits and their total in 64.
pub open spec fn load_fits(targets: Seq<StorageInfo>) -> bool {
    &&& forall|i: int|
        0 <= i < targets.len() ==> #[trigger] targets[i].quantity * targets[i].coefficient <= u32::MAX
    &&& prefix_sum(loads(targets), targets.len() as int) <= u64::MAX
}

/// Splits the collected load across `markets` destinations with the
/// evolutionary solver and records each target's market. On an error the
/// targets are left as they were.
pub fn solve_packaging_problem(targets: &mut Vec<StorageInfo>, markets: usize, seed: u64) -> (r:
    Result<(), DistributionError>)
    ensures
        r == Err::<(), DistributionError>(DistributionError::NoMarkets) <==> markets == 0,
        r == Err::<(), DistributionError>(DistributionError::LoadTooLarge) <==> markets > 0
            && !load_fits(old(targets)@),
        r is Err ==> final(targets)@ == old(targets)@,
        final(targets)@.len() == old(targets)@.len(),
        r is Ok ==> forall|i: int|
            0 <= i < old(targets)@.len() ==> {
                &&& (#[trigger] final(targets)@[i]).market_index < markets
                &&& final(targets)@[i].position == old(targets)@[i].position
                &&& final(targets)@[i].content == old(targets)@[i].content
                &&& final(targets)@[i].quantity == old(targets)@[i].quantity
                &&& final(targets)@[i].coefficient == old(targets)@[i].coefficient
            },
{
    if markets == 0 {
        return Err(DistributionError::NoMarkets);
    }
    let weights = match storage_weights(targets) {
        Some(w) => w,
        None => {
            return Err(DistributionError::LoadTooLarge);
        },
    };
    proof {
        assert(weights@ =~= loads(targets@));
    }
    let problem = PartitioningProblem::new(
        weights,
        markets,
        DISTRIBUTION_POP_SIZE,
        DISTRIBUTION_GENERATIONS,
        DISTRIBUTION_CX_PROB,
        DISTRIBUTION_MUT_PROB,
        DISTRIBUTION_FLIP_PROB,
        DISTRIBUTION_REPEATS,
    );
    if !problem.is_well_formed() {
        return Err(DistributionError::LoadTooLarge);
    }
    let assignment = problem.solve(seed);
    assign_markets(targets, &assignment);
    Ok(())
}

} // verus!
