use std::collections::HashMap;
use vstd::prelude::*;

use crate::cell::{Cell, adjacent, cell_digit_sum, digit_sum, get_adjacent_cells};

verus! {

broadcast use vstd::std_specs::hash::group_hash_axioms;

/// What the visitation record knows of a cell. A cell absent from the record
/// has not been decided yet; only `Attainable` is ever recorded.
#[derive(Debug, Clone, Copy, PartialEq, Eq, Structural)]
pub enum CellState {
    Attainable,
    NotAttainable,
    Uknown,
}

/// A cell may be entered when its digit sum does not exceed the threshold.
pub open spec fn admissible(c: Cell, threshold: u32) -> bool {
    cell_digit_sum(c) <= threshold
}

/// `p` is a walk that starts at `source`, moves between adjacent cells, and
/// steps only onto admissible cells (the source itself is exempt).
pub open spec fn is_walk(p: Seq<Cell>, source: Cell, threshold: u32) -> bool {
    &&& p.len() > 0
    &&& p[0] == source
    &&& forall|i: int| 0 < i < p.len() ==> admissible(#[trigger] p[i], threshold)
    &&& forall|i: int| 0 <= i < p.len() - 1 ==> adjacent(#[trigger] p[i], p[i + 1])
}

/// Some walk from `source` ends at `c`.
pub open spec fn reachable(source: Cell, threshold: u32, c: Cell) -> bool {
    exists|p: Seq<Cell>| is_walk(p, source, threshold) && p.last() == c
}

/// Every cell that the ant can reach from `source`, the source included.
pub open spec fn region(source: Cell, threshold: u32) -> Set<Cell> {
    Set::new(|c: Cell| reachable(source, threshold, c))
}

/// The region can be counted in a `u32` and explored without any coordinate
/// leaving the range of `u32` (every cell of it has a right and an upper
/// neighbour).
pub open spec fn fits(source: Cell, threshold: u32) -> bool {
    let r = region(source, threshold);
    &&& r.finite()
    &&& r.len() <= u32::MAX
    &&& forall|c: Cell| r.contains(c) ==> c.x < u32::MAX && c.y < u32::MAX
}

/// The number of reachable cells, where it fits in the machine's limits.
pub open spec fn reachable_count(source: Cell, threshold: u32) -> Option<u32> {
    if fits(source, threshold) {
        Some(region(source, threshold).len() as u32)
    } else {
        None
    }
}

/// Key of a cell in the visitation record: `x` in the high half, `y` in the low.
pub open spec fn key_of(c: Cell) -> u64 {
    (c.x as int * 0x1_0000_0000 + c.y as int) as u64
}

proof fn lemma_key_injective(a: Cell, b: Cell)
    ensures
        key_of(a) == key_of(b) ==> a == b,
{
    let ka = a.x as int * 0x1_0000_0000 + a.y as int;
    let kb = b.x as int * 0x1_0000_0000 + b.y as int;
    assert(0 <= ka < 0x1_0000_0000_0000_0000) by (nonlinear_arith)
        requires
            ka == a.x as int * 0x1_0000_0000 + a.y as int,
            0 <= a.x < 0x1_0000_0000,
            0 <= a.y < 0x1_0000_0000,
    ;
    assert(0 <= kb < 0x1_0000_0000_0000_0000) by (nonlinear_arith)
        requires
            kb == b.x as int * 0x1_0000_0000 + b.y as int,
            0 <= b.x < 0x1_0000_0000,
            0 <= b.y < 0x1_0000_0000,
    ;
    if ka == kb {
        assert(a.x == b.x && a.y == b.y) by (nonlinear_arith)
            requires
                a.x as int * 0x1_0000_0000 + a.y as int == b.x as int * 0x1_0000_0000 + b.y as int,
                0 <= a.y < 0x1_0000_0000,
                0 <= b.y < 0x1_0000_0000,
                0 <= a.x,
                0 <= b.x,
        ;
    }
}

fn cell_key(c: Cell) -> (r: u64)
    ensures
        r == key_of(c),
{
    assert(c.x as int * 0x1_0000_0000 + c.y as int <= u64::MAX) by (nonlinear_arith)
        requires
            0 <= c.x < 0x1_0000_0000,
            0 <= c.y < 0x1_0000_0000,
    ;
    (c.x as u64) * 0x1_0000_0000 + (c.y as u64)
}

/// A seen set `q` that holds the source and every admissible neighbour of its
/// members holds every cell of every walk.
proof fn lemma_closed_holds_walk(q: Seq<Cell>, source: Cell, threshold: u32, p: Seq<Cell>, n: int)
    requires
        q.contains(source),
        forall|i: int, c: Cell|
            0 <= i < q.len() && #[trigger] adjacent(q[i], c) && admissible(c, threshold)
                ==> q.contains(c),
        is_walk(p, source, threshold),
        0 <= n < p.len(),
    ensures
        q.contains(p[n]),
    decreases n,
{
    if n > 0 {
        lemma_closed_holds_walk(q, source, threshold, p, n - 1);
        let i = choose|i: int| 0 <= i < q.len() && q[i] == p[n - 1];
        assert(adjacent(p[n - 1], p[n - 1 + 1]));
        assert(adjacent(q[i], p[n]));
        assert(admissible(p[n], threshold));
    }
}

/// A walk to `c` extends by one step to an admissible neighbour of `c`.
proof fn lemma_extend_walk(source: Cell, threshold: u32, c: Cell, d: Cell)
    requires
        reachable(source, threshold, c),
        adjacent(c, d),
        admissible(d, threshold),
    ensures
        reachable(source, threshold, d),
{
    let p = choose|p: Seq<Cell>| is_walk(p, source, threshold) && p.last() == c;
    let p2 = p.push(d);
    assert forall|i: int| 0 <= i < p2.len() - 1 implies adjacent(#[trigger] p2[i], p2[i + 1]) by {
        if i < p.len() - 1 {
            assert(p2[i] == p[i] && p2[i + 1] == p[i + 1]);
        } else {
            assert(p2[i] == c);
        }
    }
    assert forall|i: int| 0 < i < p2.len() implies admissible(#[trigger] p2[i], threshold) by {
        if i < p.len() {
            assert(p2[i] == p[i]);
        }
    }
    assert(p2.last() == d);
}

/// The source always belongs to its own region.
pub proof fn lemma_source_in_region(source: Cell, threshold: u32)
    ensures
        region(source, threshold).contains(source),
{
    let p = seq![source];
    assert(is_walk(p, source, threshold));
    assert(p.last() == source);
}

/// Explores the grid breadth first from `source` and returns every cell
/// recorded as attainable, in the order of discovery, or `None` where the
/// region does not fit in the machine's limits.
pub fn reachable_cells(source: Cell, threshold: u32) -> (r: Option<Vec<Cell>>)
    ensures
        match r {
            Some(v) => {
                &&& fits(source, threshold)
                &&& v@.len() > 0
                &&& v@[0] == source
                &&& v@.no_duplicates()
                &&& v@.to_set() == region(source, threshold)
                &&& v@.len() == region(source, threshold).len()
            },
            None => !fits(source, threshold),
        },
{
    let mut grid: HashMap<u64, CellState> = HashMap::new();
    let mut cells: Vec<Cell> = Vec::new();
    cells.push(source);
    grid.insert(cell_key(source), CellState::Attainable);
    let mut counter: u32 = 1;
    let mut head: usize = 0;
    proof {
        lemma_source_in_region(source, threshold);
        assert forall|c: Cell| grid@.contains_key(key_of(c)) <==> cells@.contains(c) by {
            lemma_key_injective(c, source);
            if c == source {
                assert(cells@[0] == c);
            }
        }
    }
    while head < cells.len()
        invariant
            cells@.len() == counter as int,
            1 <= counter,
            head <= cells@.len(),
            cells@[0] == source,
            cells@.no_duplicates(),
            forall|i: int| 0 <= i < head ==> (#[trigger] cells@[i]).x < u32::MAX && cells@[i].y < u32::MAX,
            forall|c: Cell| grid@.contains_key(#[trigger] key_of(c)) <==> cells@.contains(c),
            forall|k: u64| grid@.contains_key(k) ==> grid@[k] == CellState::Attainable,
            forall|i: int| 0 <= i < cells@.len() ==> reachable(source, threshold, #[trigger] cells@[i]),
            forall|i: int, c: Cell|
                0 <= i < head && #[trigger] adjacent(cells@[i], c) && admissible(c, threshold)
                    ==> cells@.contains(c),
        decreases 2 * (u32::MAX - counter) + cells@.len() - head,
    {
        let current = cells[head];
        if current.x == u32::MAX || current.y == u32::MAX {
            proof {
                assert(region(source, threshold).contains(current));
            }
            return None;
        }
        let adjacent_cells = get_adjacent_cells(&current);
        let ghost counter0 = counter;
        let mut k: usize = 0;
        while k < adjacent_cells.len()
            invariant
                head < cells@.len(),
                cells@[head as int] == current,
                adjacent_cells@ == crate::cell::neighbors_of(current),
                forall|c: Cell| adjacent_cells@.contains(c) <==> adjacent(current, c),
                cells@.len() == counter as int,
                counter0 <= counter,
                k <= adjacent_cells@.len(),
                cells@[0] == source,
                cells@.no_duplicates(),
                current.x < u32::MAX && current.y < u32::MAX,
                forall|i: int| 0 <= i < head ==> (#[trigger] cells@[i]).x < u32::MAX && cells@[i].y < u32::MAX,
                forall|c: Cell| grid@.contains_key(#[trigger] key_of(c)) <==> cells@.contains(c),
                forall|k: u64| grid@.contains_key(k) ==> grid@[k] == CellState::Attainable,
                forall|i: int| 0 <= i < cells@.len() ==> reachable(source, threshold, #[trigger] cells@[i]),
                forall|i: int, c: Cell|
                    0 <= i < head && #[trigger] adjacent(cells@[i], c) && admissible(c, threshold)
                        ==> cells@.contains(c),
                forall|j: int|
                    0 <= j < k && admissible(#[trigger] adjacent_cells@[j], threshold)
                        ==> cells@.contains(adjacent_cells@[j]),
            decreases adjacent_cells@.len() - k,
        {
            let next = adjacent_cells[k];
            let unknown = CellState::Uknown;
            let state: &CellState = match grid.get(&cell_key(next)) {
                Some(s) => s,
                None => &unknown,
            };
            let cell_checked: bool = match state {
                CellState::Attainable => true,
                CellState::NotAttainable => true,
                CellState::Uknown => false,
            };
            if !cell_checked && next.sum_of_digits() <= threshold {
                proof {
                    assert(adjacent_cells@.contains(next));
                    assert(reachable(source, threshold, current));
                    lemma_extend_walk(source, threshold, current, next);
                    assert(!cells@.contains(next));
                }
                if counter == u32::MAX {
                    proof {
                        let seen = cells@.to_set().insert(next);
                        let reg = region(source, threshold);
                        cells@.unique_seq_to_set();
                        assert forall|c: Cell| seen.contains(c) implies reg.contains(c) by {
                            if c != next {
                                let i = choose|i: int| 0 <= i < cells@.len() && cells@[i] == c;
                                assert(reachable(source, threshold, cells@[i]));
                            }
                        }
                        if reg.finite() {
                            vstd::set_lib::lemma_len_subset(seen, reg);
                        }
                    }
                    return None;
                }
                let ghost old_cells = cells@;
                let ghost old_grid = grid@;
                cells.push(next);
                grid.insert(cell_key(next), CellState::Attainable);
                counter = counter + 1;
                proof {
                    assert forall|c: Cell| grid@.contains_key(#[trigger] key_of(c)) <==> cells@.contains(c) by {
                        lemma_key_injective(c, next);
                        if old_cells.contains(c) {
                            let i = choose|i: int| 0 <= i < old_cells.len() && old_cells[i] == c;
                            assert(cells@[i] == c);
                        }
                        if cells@.contains(c) && c != next {
                            let i = choose|i: int| 0 <= i < cells@.len() && cells@[i] == c;
                            assert(old_cells[i] == c);
                        }
                        if c == next {
                            assert(cells@[cells@.len() - 1] == c);
                        }
                    }
                    assert forall|i: int, c: Cell|
                        0 <= i < head && #[trigger] adjacent(cells@[i], c) && admissible(c, threshold)
                            implies cells@.contains(c) by {
                        assert(old_cells[i] == cells@[i]);
                        assert(old_cells.contains(c));
                        let j = choose|j: int| 0 <= j < old_cells.len() && old_cells[j] == c;
                        assert(cells@[j] == c);
                    }
                    assert forall|j: int|
                        0 <= j <= k && admissible(#[trigger] adjacent_cells@[j], threshold)
                            implies cells@.contains(adjacent_cells@[j]) by {
                        if j < k {
                            let c = adjacent_cells@[j];
                            let m = choose|m: int| 0 <= m < old_cells.len() && old_cells[m] == c;
                            assert(cells@[m] == c);
                        } else {
                            assert(cells@[cells@.len() - 1] == next);
                        }
                    }
                    assert forall|i: int| 0 <= i < cells@.len() implies reachable(source, threshold, #[trigger] cells@[i]) by {
                        if i < old_cells.len() {
                            assert(old_cells[i] == cells@[i]);
                        }
                    }
                }
            } else {
                proof {
                    if admissible(next, threshold) {
                        assert(grid@.contains_key(key_of(next)));
                    }
                }
            }
            k = k + 1;
        }
        proof {
            assert forall|i: int, c: Cell|
                0 <= i < head + 1 && #[trigger] adjacent(cells@[i], c) && admissible(c, threshold)
                    implies cells@.contains(c) by {
                if i == head {
                    assert(adjacent_cells@.contains(c));
                    let j = choose|j: int| 0 <= j < adjacent_cells@.len() && adjacent_cells@[j] == c;
                    assert(admissible(adjacent_cells@[j], threshold));
                }
            }
        }
        head = head + 1;
    }
    proof {
        let reg = region(source, threshold);
        let seen = cells@.to_set();
        assert(cells@.contains(source)) by {
            assert(cells@[0] == source);
        }
        assert forall|c: Cell| reg.contains(c) <==> seen.contains(c) by {
            if reg.contains(c) {
                let p = choose|p: Seq<Cell>| is_walk(p, source, threshold) && p.last() == c;
                lemma_closed_holds_walk(cells@, source, threshold, p, p.len() - 1);
            }
            if seen.contains(c) {
                let i = choose|i: int| 0 <= i < cells@.len() && cells@[i] == c;
                assert(reachable(source, threshold, cells@[i]));
            }
        }
        assert(seen =~= reg);
        cells@.unique_seq_to_set();
        assert forall|c: Cell| reg.contains(c) implies c.x < u32::MAX && c.y < u32::MAX by {
            assert(seen.contains(c));
            let i = choose|i: int| 0 <= i < cells@.len() && cells@[i] == c;
            assert(reachable(source, threshold, cells@[i]));
        }
    }
    Some(cells)
}

/// Counts the cells that the ant can reach from `source` when no cell it
/// steps onto may have a digit sum above `threshold`. The source is counted
/// whatever its own digit sum. `None` where the count or a coordinate met on
/// the way would not fit in a `u32`.
pub fn compute_reachable_count(source: Cell, threshold: u32) -> (r: Option<u32>)
    ensures
        r == reachable_count(source, threshold),
        r matches Some(n) ==> n >= 1,
{
    match reachable_cells(source, threshold) {
        Some(cells) => Some(cells.len() as u32),
        None => None,
    }
}

/// The count is a function of the source and the threshold alone: two runs on
/// the same inputs give the same answer.
pub proof fn lemma_count_deterministic(source: Cell, threshold: u32, r1: Option<u32>, r2: Option<u32>)
    requires
        r1 == reachable_count(source, threshold),
        r2 == reachable_count(source, threshold),
    ensures
        r1 == r2,
{
}

/// Whenever the count exists it is at least one: the source is always counted.
pub proof fn lemma_count_positive(source: Cell, threshold: u32)
    ensures
        reachable_count(source, threshold) matches Some(n) ==> n >= 1,
{
    lemma_source_in_region(source, threshold);
    let reg = region(source, threshold);
    if fits(source, threshold) {
        vstd::set_lib::lemma_len_subset(set![source], reg);
        assert(set![source].len() == 1);
    }
}

/// With threshold zero only cells of digit sum zero are admissible, and the
/// only such cell is the origin.
pub proof fn lemma_zero_threshold_admits_only_origin(c: Cell)
    ensures
        admissible(c, 0) <==> c == (Cell { x: 0, y: 0 }),
{
    lemma_digit_sum_zero(c.x as nat);
    lemma_digit_sum_zero(c.y as nat);
}

proof fn lemma_digit_sum_zero(n: nat)
    ensures
        digit_sum(n) == 0 <==> n == 0,
    decreases n,
{
    if n > 0 {
        lemma_digit_sum_zero(n / 10);
    }
}

/// Every cell of the region is admissible or is the source itself.
pub proof fn lemma_region_admissible(source: Cell, threshold: u32, c: Cell)
    requires
        region(source, threshold).contains(c),
    ensures
        c == source || admissible(c, threshold),
{
    let p = choose|p: Seq<Cell>| is_walk(p, source, threshold) && p.last() == c;
    if p.len() > 1 {
        assert(admissible(p[p.len() - 1], threshold));
    }
}

} // verus!
