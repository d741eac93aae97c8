use vstd::prelude::*;

verus! {

/// Sum of the decimal digits of `n`.
pub open spec fn digit_sum(n: nat) -> nat
    decreases n,
{
    if n == 0 {
        0
    } else {
        (n % 10) + digit_sum(n / 10)
    }
}

/// The digit sum never exceeds the number itself.
pub proof fn lemma_digit_sum_le(n: nat)
    ensures
        digit_sum(n) <= n,
    decreases n,
{
    if n > 0 {
        lemma_digit_sum_le(n / 10);
    }
}

/// The digit sum of a `u32` leaves room to add a second one without overflow.
pub proof fn lemma_digit_sum_u32(n: u32)
    ensures
        digit_sum(n as nat) < 0x8000_0000,
{
    lemma_digit_sum_le(n as nat / 10);
}

/// Sum of the digits of one coordinate, computed by repeated division by ten.
fn digits_of(n: u32) -> (r: u32)
    ensures
        r == digit_sum(n as nat),
{
    let mut m: u32 = n;
    let mut acc: u32 = 0;
    proof {
        lemma_digit_sum_le(n as nat);
    }
    while m > 0
        invariant
            acc + digit_sum(m as nat) == digit_sum(n as nat),
            digit_sum(n as nat) <= n,
        decreases m,
    {
        acc = acc + m % 10;
        m = m / 10;
    }
    acc
}

/// A cell of the grid, given by its two non-negative coordinates.
#[derive(Clone, Copy, Debug, PartialEq, Eq, Structural, Hash)]
pub struct Cell {
    pub x: u32,
    pub y: u32,
}

/// Digit sum of a cell: the digits of both coordinates together.
pub open spec fn cell_digit_sum(c: Cell) -> nat {
    digit_sum(c.x as nat) + digit_sum(c.y as nat)
}

impl Cell {
    /// The cell at column `x`, row `y`.
    pub fn new(x: u32, y: u32) -> (r: Cell)
        ensures
            r.x == x,
            r.y == y,
    {
        Cell { x, y }
    }

    /// Sum of the decimal digits of `x`.
    pub fn sum_of_digits_x(&self) -> (r: u32)
        ensures
            r == digit_sum(self.x as nat),
    {
        digits_of(self.x)
    }

    /// Sum of the decimal digits of `y`.
    pub fn sum_of_digits_y(&self) -> (r: u32)
        ensures
            r == digit_sum(self.y as nat),
    {
        digits_of(self.y)
    }

    /// Digit sum of the whole cell: that of `x` plus that of `y`.
    pub fn sum_of_digits(&self) -> (r: u32)
        ensures
            r == cell_digit_sum(*self),
    {
        proof {
            lemma_digit_sum_u32(self.x);
            lemma_digit_sum_u32(self.y);
        }
        self.sum_of_digits_x() + self.sum_of_digits_y()
    }
}

} // verus!

verus! {

/// Two cells are adjacent when they differ by one in exactly one coordinate.
pub open spec fn adjacent(a: Cell, b: Cell) -> bool {
    ||| a.x == b.x && (a.y + 1 == b.y || b.y + 1 == a.y)
    ||| a.y == b.y && (a.x + 1 == b.x || b.x + 1 == a.x)
}

/// The neighbours of `c`, in the order in which they are produced:
/// right, up, then left and down where those stay on the grid.
pub open spec fn neighbors_of(c: Cell) -> Seq<Cell> {
    let base = seq![Cell { x: (c.x + 1) as u32, y: c.y }, Cell { x: c.x, y: (c.y + 1) as u32 }];
    let with_left = if c.x > 0 {
        base.push(Cell { x: (c.x - 1) as u32, y: c.y })
    } else {
        base
    };
    if c.y > 0 {
        with_left.push(Cell { x: c.x, y: (c.y - 1) as u32 })
    } else {
        with_left
    }
}

/// Returns the cells adjacent to `cell` whose coordinates are non-negative:
/// two on the corner, three on an edge, four elsewhere.
pub fn get_adjacent_cells(cell: &Cell) -> (r: Vec<Cell>)
    requires
        cell.x < u32::MAX,
        cell.y < u32::MAX,
    ensures
        r@ == neighbors_of(*cell),
        r@.len() == 2 + (if cell.x > 0 { 1int } else { 0 }) + (if cell.y > 0 { 1int } else { 0 }),
        r@.no_duplicates(),
        forall|c: Cell| r@.contains(c) <==> adjacent(*cell, c),
{
    let mut adjacent_cells: Vec<Cell> = Vec::new();
    adjacent_cells.push(Cell::new(cell.x + 1, cell.y));
    adjacent_cells.push(Cell::new(cell.x, cell.y + 1));
    if cell.x > 0 {
        adjacent_cells.push(Cell::new(cell.x - 1, cell.y));
    }
    if cell.y > 0 {
        adjacent_cells.push(Cell::new(cell.x, cell.y - 1));
    }
    proof {
        let s = adjacent_cells@;
        assert(s =~= neighbors_of(*cell));
        assert forall|c: Cell| s.contains(c) <==> adjacent(*cell, c) by {
            if adjacent(*cell, c) {
                if c.x == cell.x + 1 {
                    assert(s[0] == c);
                } else if c.y == cell.y + 1 {
                    assert(s[1] == c);
                } else if c.x + 1 == cell.x {
                    assert(s[2] == c);
                } else {
                    assert(s[s.len() - 1] == c);
                }
            }
        }
    }
    adjacent_cells
}

} // verus!

verus! {

/// The digit sum of a cell does not depend on the order of its coordinates.
pub proof fn lemma_cell_digit_sum_symmetric(x: u32, y: u32)
    ensures
        cell_digit_sum(Cell { x, y }) == cell_digit_sum(Cell { x: y, y: x }),
        cell_digit_sum(Cell { x, y }) == digit_sum(x as nat) + digit_sum(y as nat),
{
}

/// The cells whose digit sum stays within `threshold` form a finite set
/// (it is part of the finite grid of `u32` coordinates; digit sums are
/// natural numbers, so never negative).
pub proof fn lemma_bounded_cells_finite(threshold: nat)
    ensures
        Set::new(|c: Cell| cell_digit_sum(c) <= threshold).finite(),
{
    let keys = vstd::set_lib::set_int_range(0, 0x1_0000_0000_0000_0000);
    vstd::set_lib::lemma_int_range(0, 0x1_0000_0000_0000_0000);
    let decode = |k: int| Cell { x: (k / 0x1_0000_0000) as u32, y: (k % 0x1_0000_0000) as u32 };
    let all = keys.map(decode);
    keys.lemma_map_finite(decode);
    let bounded = Set::new(|c: Cell| cell_digit_sum(c) <= threshold);
    assert forall|c: Cell| bounded.contains(c) implies all.contains(c) by {
        let k = c.x as int * 0x1_0000_0000 + c.y as int;
        assert(0 <= k < 0x1_0000_0000_0000_0000 && k / 0x1_0000_0000 == c.x && k % 0x1_0000_0000 == c.y)
            by (nonlinear_arith)
            requires
                k == c.x as int * 0x1_0000_0000 + c.y as int,
                0 <= c.x < 0x1_0000_0000,
                0 <= c.y < 0x1_0000_0000,
        ;
        assert(keys.contains(k));
        assert(decode(k) == c);
    }
    vstd::set_lib::lemma_len_subset(bounded, all);
}

} // verus!
