//! The state of a grid that is being solved, as mathematics: for each cell
//! the set of digits that it may still hold.

use vstd::prelude::*;
use crate::rules::{digits, in_grid, peers, Clues, Grid};

verus! {

/// For each cell of the grid, the digits that it may still hold.
pub type Candidates = Seq<Seq<Set<int>>>;

/// A 9×9 grid of sets of digits.
pub open spec fn well_formed(c: Candidates) -> bool {
    &&& c.len() == 9
    &&& forall|i: int| 0 <= i < 9 ==> (#[trigger] c[i]).len() == 9
    &&& forall|i: int, j: int| in_grid(i, j) ==> (#[trigger] c[i][j]).subset_of(digits())
}

/// What is known of a puzzle before any reasoning: a given cell holds its
/// digit, a blank cell may hold any.
pub open spec fn initial(clues: Clues) -> Candidates {
    Seq::new(
        9,
        |i: int|
            Seq::new(
                9,
                |j: int|
                    match clues[i][j] {
                        Some(n) => set![n],
                        None => digits(),
                    },
            ),
    )
}

/// Every cell of `g` holds a digit that `c` still allows there.
pub open spec fn admits(c: Candidates, g: Grid) -> bool {
    forall|i: int, j: int| in_grid(i, j) ==> (#[trigger] c[i][j]).contains(g[i][j])
}

/// `a` allows in no cell a digit that `b` does not allow there.
pub open spec fn within(a: Candidates, b: Candidates) -> bool {
    forall|i: int, j: int, n: int| in_grid(i, j) && (#[trigger] a[i][j].contains(n)) ==> b[i][j].contains(n)
}

/// Every cell has exactly one digit left.
pub open spec fn all_single(c: Candidates) -> bool {
    forall|i: int, j: int| in_grid(i, j) ==> (#[trigger] c[i][j]).len() == 1
}

/// The grid that holds in each cell a digit that `c` allows there; where
/// every cell has one digit left, the only grid that `c` admits.
pub open spec fn grid_of(c: Candidates) -> Grid {
    Seq::new(9, |i: int| Seq::new(9, |j: int| c[i][j].choose()))
}

/// `c` with `n` struck from every other cell that shares a row, a column or a
/// block with `(i, j)`.
pub open spec fn eliminate(c: Candidates, i: int, j: int, n: int) -> Candidates {
    Seq::new(
        9,
        |r: int|
            Seq::new(
                9,
                |q: int|
                    if peers(i, j, r, q) {
                        c[r][q].remove(n)
                    } else {
                        c[r][q]
                    },
            ),
    )
}

/// `c` with `n` struck from the cell `(i, j)`.
pub open spec fn strike_cell(c: Candidates, i: int, j: int, n: int) -> Candidates {
    Seq::new(
        9,
        |r: int|
            Seq::new(
                9,
                |q: int|
                    if r == i && q == j {
                        c[r][q].remove(n)
                    } else {
                        c[r][q]
                    },
            ),
    )
}

/// `c` with `n` struck from the cells of the row of `(i, j)`, but for
/// `(i, j)` itself, that stand in the columns before `end`.
pub open spec fn strike_row(c: Candidates, i: int, j: int, n: int, end: int) -> Candidates {
    Seq::new(
        9,
        |r: int|
            Seq::new(
                9,
                |q: int|
                    if r == i && q != j && q < end {
                        c[r][q].remove(n)
                    } else {
                        c[r][q]
                    },
            ),
    )
}

/// `c` with `n` struck from the cells of the column of `(i, j)`, but for
/// `(i, j)` itself, that stand in the rows before `end`.
pub open spec fn strike_col(c: Candidates, i: int, j: int, n: int, end: int) -> Candidates {
    Seq::new(
        9,
        |r: int|
            Seq::new(
                9,
                |q: int|
                    if q == j && r != i && r < end {
                        c[r][q].remove(n)
                    } else {
                        c[r][q]
                    },
            ),
    )
}

/// `c` with `n` struck from the cells of the block of `(i, j)` that stand
/// neither in its row nor in its column and, row by row, before the cell
/// `(r_end, q_end)`.
pub open spec fn strike_block(c: Candidates, i: int, j: int, n: int, r_end: int, q_end: int) -> Candidates {
    Seq::new(
        9,
        |r: int|
            Seq::new(
                9,
                |q: int|
                    if r / 3 == i / 3 && q / 3 == j / 3 && r != i && q != j && (r < r_end || (r == r_end && q
                        < q_end)) {
                        c[r][q].remove(n)
                    } else {
                        c[r][q]
                    },
            ),
    )
}

/// `c` with the cell `(i, j)` narrowed to the digit `n`.
pub open spec fn pin(c: Candidates, i: int, j: int, n: int) -> Candidates {
    Seq::new(
        9,
        |r: int|
            Seq::new(
                9,
                |q: int|
                    if r == i && q == j {
                        set![n]
                    } else {
                        c[r][q]
                    },
            ),
    )
}

/// The pairs of a cell and a digit that it may still hold, each encoded as
/// `81 * row + 9 * column + digit`.
pub open spec fn marks(c: Candidates) -> Set<int> {
    Set::new(|k: int| 0 <= k < 729 && c[k / 81][(k / 9) % 9].contains(k % 9))
}

/// How many digits are left over all cells: what the search has yet to
/// decide.
pub open spec fn weight(c: Candidates) -> nat {
    marks(c).len()
}

/// Along the row, one more column is one more cell struck, but for the
/// column of `(i, j)` itself.
pub proof fn lemma_strike_row_step(c: Candidates, i: int, j: int, n: int, end: int)
    requires
        well_formed(c),
        in_grid(i, end),
    ensures
        strike_row(c, i, j, n, 0) == c,
        strike_row(c, i, j, n, end + 1) == if end != j {
            strike_cell(strike_row(c, i, j, n, end), i, end, n)
        } else {
            strike_row(c, i, j, n, end)
        },
{
    assert(strike_row(c, i, j, n, 0) =~~= c);
    if end != j {
        assert(strike_row(c, i, j, n, end + 1) =~~= strike_cell(strike_row(c, i, j, n, end), i, end, n));
    } else {
        assert(strike_row(c, i, j, n, end + 1) =~~= strike_row(c, i, j, n, end));
    }
}

/// Along the column, one more row is one more cell struck, but for the row
/// of `(i, j)` itself.
pub proof fn lemma_strike_col_step(c: Candidates, i: int, j: int, n: int, end: int)
    requires
        well_formed(c),
        in_grid(end, j),
    ensures
        strike_col(c, i, j, n, 0) == c,
        strike_col(c, i, j, n, end + 1) == if end != i {
            strike_cell(strike_col(c, i, j, n, end), end, j, n)
        } else {
            strike_col(c, i, j, n, end)
        },
{
    assert(strike_col(c, i, j, n, 0) =~~= c);
    if end != i {
        assert(strike_col(c, i, j, n, end + 1) =~~= strike_cell(strike_col(c, i, j, n, end), end, j, n));
    } else {
        assert(strike_col(c, i, j, n, end + 1) =~~= strike_col(c, i, j, n, end));
    }
}

/// Through the block, one more cell is one more cell struck, but for the
/// cells in the row and in the column of `(i, j)`.
pub proof fn lemma_strike_block_step(c: Candidates, i: int, j: int, n: int, r: int, q: int)
    requires
        well_formed(c),
        in_grid(i, j),
        in_grid(r, q),
        r / 3 == i / 3,
        q / 3 == j / 3,
    ensures
        strike_block(c, i, j, n, r, q + 1) == if r != i && q != j {
            strike_cell(strike_block(c, i, j, n, r, q), r, q, n)
        } else {
            strike_block(c, i, j, n, r, q)
        },
{
    if r != i && q != j {
        assert(strike_block(c, i, j, n, r, q + 1) =~~= strike_cell(strike_block(c, i, j, n, r, q), r, q, n));
    } else {
        assert(strike_block(c, i, j, n, r, q + 1) =~~= strike_block(c, i, j, n, r, q));
    }
}

/// Through the block, the end of one row is the start of the next, and the
/// row of `(i, j)` is passed over; nothing is struck before the block
/// starts, and all is struck where it ends.
pub proof fn lemma_strike_block_rows(c: Candidates, i: int, j: int, n: int, r: int)
    requires
        well_formed(c),
        in_grid(i, j),
        0 <= r < 9,
        r / 3 == i / 3,
    ensures
        strike_block(c, i, j, n, i / 3 * 3, 0) == c,
        strike_block(c, i, j, n, r, j / 3 * 3) == strike_block(c, i, j, n, r, 0),
        strike_block(c, i, j, n, r, j / 3 * 3 + 3) == strike_block(c, i, j, n, r + 1, 0),
        r == i ==> strike_block(c, i, j, n, r, 0) == strike_block(c, i, j, n, r + 1, 0),
        strike_block(c, i, j, n, i / 3 * 3 + 3, 0) == strike_block(c, i, j, n, 9, 0),
{
    if r == i {
        assert(strike_block(c, i, j, n, r, 0) =~~= strike_block(c, i, j, n, r + 1, 0));
    }
    assert(strike_block(c, i, j, n, i / 3 * 3, 0) =~~= c);
    assert(strike_block(c, i, j, n, r, j / 3 * 3) =~~= strike_block(c, i, j, n, r, 0));
    assert(strike_block(c, i, j, n, r, j / 3 * 3 + 3) =~~= strike_block(c, i, j, n, r + 1, 0));
    assert(strike_block(c, i, j, n, i / 3 * 3 + 3, 0) =~~= strike_block(c, i, j, n, 9, 0));
}

/// To strike a digit from the rest of the row, then of the column, then of
/// the block is to strike it from every neighbour.
pub proof fn lemma_strike_all(c: Candidates, i: int, j: int, n: int)
    requires
        well_formed(c),
        in_grid(i, j),
    ensures
        strike_block(strike_col(strike_row(c, i, j, n, 9), i, j, n, 9), i, j, n, 9, 0) == eliminate(c, i, j, n),
{
    let row = strike_row(c, i, j, n, 9);
    let col = strike_col(row, i, j, n, 9);
    assert(strike_block(col, i, j, n, 9, 0) =~~= eliminate(c, i, j, n));
}

/// What narrows the narrower narrows the wider.
pub proof fn lemma_within_trans(a: Candidates, b: Candidates, c: Candidates)
    requires
        within(a, b),
        within(b, c),
    ensures
        within(a, c),
{
    assert forall|i: int, j: int, n: int| in_grid(i, j) && (#[trigger] a[i][j].contains(n)) implies c[i][j].contains(n)
        by {}
}

/// Narrowing the candidates does not add weight.
pub proof fn lemma_within_weight(a: Candidates, b: Candidates)
    requires
        within(a, b),
    ensures
        marks(a).finite(),
        marks(b).finite(),
        weight(a) <= weight(b),
{
    vstd::set_lib::lemma_int_range(0, 729);
    let all = vstd::set_lib::set_int_range(0, 729);
    vstd::set_lib::lemma_len_subset(marks(b), all);
    assert(marks(a).subset_of(marks(b))) by {
        assert forall|k: int| marks(a).contains(k) implies marks(b).contains(k) by {}
    }
    vstd::set_lib::lemma_len_subset(marks(a), marks(b));
}

/// Narrowing the candidates by at least one digit of one cell takes weight
/// away.
pub proof fn lemma_within_lighter(a: Candidates, b: Candidates, i: int, j: int, n: int)
    requires
        within(a, b),
        in_grid(i, j),
        0 <= n < 9,
        b[i][j].contains(n),
        !a[i][j].contains(n),
    ensures
        weight(a) < weight(b),
{
    lemma_within_weight(a, b);
    let k = 81 * i + 9 * j + n;
    assert(k / 81 == i && (k / 9) % 9 == j && k % 9 == n);
    assert(marks(b).contains(k) && !marks(a).contains(k));
    assert(marks(a).subset_of(marks(b).remove(k)));
    vstd::set_lib::lemma_len_subset(marks(a), marks(b).remove(k));
}

/// Two well-formed grids of candidates that narrow each other are the same.
pub proof fn lemma_within_both(a: Candidates, b: Candidates)
    requires
        well_formed(a),
        well_formed(b),
        within(a, b),
        within(b, a),
    ensures
        a == b,
{
    assert(a =~~= b);
}

/// Two well-formed grids of candidates, one narrower than the other, are the
/// same or differ in weight.
pub proof fn lemma_within_same_or_lighter(a: Candidates, b: Candidates)
    requires
        well_formed(a),
        well_formed(b),
        within(a, b),
    ensures
        a == b || weight(a) < weight(b),
        weight(a) <= weight(b),
{
    lemma_within_weight(a, b);
    if !within(b, a) {
        let (i, j, n) = choose|i: int, j: int, n: int|
            in_grid(i, j) && (#[trigger] b[i][j].contains(n)) && !a[i][j].contains(n);
        lemma_within_lighter(a, b, i, j, n);
    } else {
        lemma_within_both(a, b);
    }
}

} // verus!
