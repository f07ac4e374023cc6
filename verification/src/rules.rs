//! The rules of the puzzle, as mathematics: grids, units, and what it means
//! for a grid to be solved.

use vstd::prelude::*;

verus! {

/// A grid of digits, one row per entry.
pub type Grid = Seq<Seq<int>>;

/// A puzzle: a grid in which a cell either holds a given digit or is blank.
pub type Clues = Seq<Seq<Option<int>>>;

/// The digits a cell may hold.
pub open spec fn digits() -> Set<int> {
    Set::new(|n: int| 0 <= n < 9)
}

/// `(i, j)` addresses a cell of the grid: row `i`, column `j`.
pub open spec fn in_grid(i: int, j: int) -> bool {
    0 <= i < 9 && 0 <= j < 9
}

/// The nine cells of row `i`, left to right.
pub open spec fn row_cells(i: int) -> Seq<(int, int)> {
    Seq::new(9, |k: int| (i, k))
}

/// The nine cells of column `j`, top to bottom.
pub open spec fn col_cells(j: int) -> Seq<(int, int)> {
    Seq::new(9, |k: int| (k, j))
}

/// The nine cells of the 3×3 block whose top left cell is `(i, j)`, row by row.
pub open spec fn block_cells(i: int, j: int) -> Seq<(int, int)> {
    Seq::new(9, |k: int| (i + k / 3, j + k % 3))
}

/// A 9×9 grid with a digit in every cell.
pub open spec fn is_grid(g: Grid) -> bool {
    &&& g.len() == 9
    &&& forall|i: int| 0 <= i < 9 ==> (#[trigger] g[i]).len() == 9
    &&& forall|i: int, j: int| in_grid(i, j) ==> 0 <= #[trigger] g[i][j] < 9
}

/// The digit that `g` holds in `cell`.
pub open spec fn value_at(g: Grid, cell: (int, int)) -> int {
    g[cell.0][cell.1]
}

/// Some cell of `unit` holds the digit `d`.
pub open spec fn occurs(g: Grid, unit: Seq<(int, int)>, d: int) -> bool {
    exists|k: int| 0 <= k < 9 && #[trigger] value_at(g, unit[k]) == d
}

/// Each of the nine digits occurs exactly once among the nine cells of `unit`.
pub open spec fn each_digit_once(g: Grid, unit: Seq<(int, int)>) -> bool {
    &&& forall|d: int| 0 <= d < 9 ==> #[trigger] occurs(g, unit, d)
    &&& forall|a: int, b: int|
        0 <= a < 9 && 0 <= b < 9 && #[trigger] value_at(g, unit[a]) == #[trigger] value_at(g, unit[b])
            ==> a == b
}

/// A solved grid: every row, every column and every block holds each digit
/// exactly once.
pub open spec fn is_solution(g: Grid) -> bool {
    &&& is_grid(g)
    &&& forall|i: int| 0 <= i < 9 ==> each_digit_once(g, #[trigger] row_cells(i))
    &&& forall|j: int| 0 <= j < 9 ==> each_digit_once(g, #[trigger] col_cells(j))
    &&& forall|a: int, b: int| 0 <= a < 3 && 0 <= b < 3 ==> each_digit_once(g, #[trigger] block_cells(3 * a, 3 * b))
}

/// A 9×9 grid of clues in which every given digit is a digit.
pub open spec fn is_puzzle(clues: Clues) -> bool {
    &&& clues.len() == 9
    &&& forall|i: int| 0 <= i < 9 ==> (#[trigger] clues[i]).len() == 9
    &&& forall|i: int, j: int| in_grid(i, j) && (#[trigger] clues[i][j]) is Some ==> 0 <= clues[i][j]->0 < 9
}

/// Every given digit of `clues` stands in the same cell of `g`.
pub open spec fn keeps_clues(clues: Clues, g: Grid) -> bool {
    forall|i: int, j: int| in_grid(i, j) && (#[trigger] clues[i][j]) is Some ==> g[i][j] == clues[i][j]->0
}

/// `g` solves the puzzle `clues`.
pub open spec fn is_completion(clues: Clues, g: Grid) -> bool {
    is_solution(g) && keeps_clues(clues, g)
}

/// Two different cells that share a row, a column or a block.
pub open spec fn peers(i: int, j: int, r: int, c: int) -> bool {
    &&& in_grid(i, j)
    &&& in_grid(r, c)
    &&& r != i || c != j
    &&& r == i || c == j || (r / 3 == i / 3 && c / 3 == j / 3)
}

/// No two cells that share a unit hold the same digit.
pub open spec fn peers_differ(g: Grid) -> bool {
    forall|i: int, j: int, r: int, c: int| peers(i, j, r, c) ==> #[trigger] g[i][j] != #[trigger] g[r][c]
}

/// Any two of the nine cells of `unit` share a row, a column or a block.
pub open spec fn is_unit(unit: Seq<(int, int)>) -> bool {
    &&& unit.len() == 9
    &&& forall|a: int, b: int|
        0 <= a < 9 && 0 <= b < 9 && a != b ==> peers(
            (#[trigger] unit[a]).0,
            unit[a].1,
            (#[trigger] unit[b]).0,
            unit[b].1,
        )
}

/// There are nine digits, and a set of digits has at most nine members.
pub proof fn lemma_digits(s: Set<int>)
    requires
        s.subset_of(digits()),
    ensures
        digits().finite(),
        digits().len() == 9,
        s.finite(),
        s.len() <= 9,
{
    vstd::set_lib::lemma_int_range(0, 9);
    assert(digits() == vstd::set_lib::set_int_range(0, 9));
    vstd::set_lib::lemma_len_subset(s, digits());
}

/// A set with one member is the set of what `choose` picks from it.
pub proof fn lemma_single(s: Set<int>)
    requires
        s.finite(),
        s.len() == 1,
    ensures
        s == set![s.choose()],
        s.contains(s.choose()),
{
    let n = s.choose();
    assert(s.remove(n).len() == 0);
}

/// Nine different digits are all nine digits.
proof fn lemma_nine_of_nine(vals: Seq<int>)
    requires
        vals.len() == 9,
        forall|k: int| 0 <= k < 9 ==> 0 <= #[trigger] vals[k] < 9,
        forall|a: int, b: int| 0 <= a < 9 && 0 <= b < 9 && a != b ==> #[trigger] vals[a] != #[trigger] vals[b],
    ensures
        forall|d: int| 0 <= d < 9 ==> #[trigger] vals.contains(d),
{
    vals.unique_seq_to_set();
    assert(vals.to_set().subset_of(digits())) by {
        assert forall|d: int| vals.to_set().contains(d) implies digits().contains(d) by {}
    }
    lemma_digits(vals.to_set());
    vstd::set_lib::lemma_subset_equality(vals.to_set(), digits());
    assert forall|d: int| 0 <= d < 9 implies #[trigger] vals.contains(d) by {
        assert(digits().contains(d));
    }
}

/// In a solved grid two cells that share a unit hold different digits.
pub proof fn lemma_solution_peers_differ(g: Grid)
    requires
        is_solution(g),
    ensures
        peers_differ(g),
{
    assert forall|i: int, j: int, r: int, c: int| peers(i, j, r, c) implies #[trigger] g[i][j]
        != #[trigger] g[r][c] by {
        if r == i {
            let unit = row_cells(i);
            assert(value_at(g, unit[j]) == g[i][j]);
            assert(value_at(g, unit[c]) == g[r][c]);
        } else if c == j {
            let unit = col_cells(j);
            assert(value_at(g, unit[i]) == g[i][j]);
            assert(value_at(g, unit[r]) == g[r][c]);
        } else {
            let unit = block_cells(3 * (i / 3), 3 * (j / 3));
            let a = 3 * (i % 3) + j % 3;
            let b = 3 * (r % 3) + c % 3;
            assert(value_at(g, unit[a]) == g[i][j]);
            assert(value_at(g, unit[b]) == g[r][c]);
        }
    }
}

/// The cells of a row are a unit.
proof fn lemma_row_is_unit(i: int)
    requires
        0 <= i < 9,
    ensures
        is_unit(row_cells(i)),
{
}

/// The cells of a column are a unit.
proof fn lemma_col_is_unit(j: int)
    requires
        0 <= j < 9,
    ensures
        is_unit(col_cells(j)),
{
}

/// The cells of a block are a unit.
proof fn lemma_block_is_unit(a: int, b: int)
    requires
        0 <= a < 3,
        0 <= b < 3,
    ensures
        is_unit(block_cells(3 * a, 3 * b)),
{
    let unit = block_cells(3 * a, 3 * b);
    assert forall|k: int, m: int| 0 <= k < 9 && 0 <= m < 9 && k != m implies peers(
        (#[trigger] unit[k]).0,
        unit[k].1,
        (#[trigger] unit[m]).0,
        unit[m].1,
    ) by {
        let (r, c) = (3 * a + k / 3, 3 * b + k % 3);
        let (r2, c2) = (3 * a + m / 3, 3 * b + m % 3);
        assert(unit[k] == (r, c) && unit[m] == (r2, c2));
        assert(r / 3 == a && r2 / 3 == a && c / 3 == b && c2 / 3 == b);
        assert(r != r2 || c != c2);
    }
}

/// Where no two cells that share a unit hold the same digit, the cells of a
/// unit hold each digit exactly once.
proof fn lemma_unit_complete(g: Grid, unit: Seq<(int, int)>)
    requires
        is_grid(g),
        peers_differ(g),
        is_unit(unit),
    ensures
        each_digit_once(g, unit),
{
    let vals = Seq::new(9, |k: int| value_at(g, unit[k]));
    assert forall|a: int, b: int| 0 <= a < 9 && 0 <= b < 9 && a != b implies #[trigger] vals[a]
        != #[trigger] vals[b] by {
        assert(peers(unit[a].0, unit[a].1, unit[b].0, unit[b].1));
    }
    assert forall|k: int| 0 <= k < 9 implies 0 <= #[trigger] vals[k] < 9 by {
        let other = if k == 0 { 1 } else { 0int };
        assert(peers(unit[k].0, unit[k].1, unit[other].0, unit[other].1));
    }
    lemma_nine_of_nine(vals);
    assert forall|d: int| 0 <= d < 9 implies #[trigger] occurs(g, unit, d) by {
        assert(vals.contains(d));
        let k = choose|k: int| 0 <= k < vals.len() && vals[k] == d;
        assert(value_at(g, unit[k]) == d);
    }
    assert forall|a: int, b: int|
        0 <= a < 9 && 0 <= b < 9 && #[trigger] value_at(g, unit[a]) == #[trigger] value_at(g, unit[b]) implies a
        == b by {
        if a != b {
            assert(vals[a] != vals[b]);
        }
    }
}

/// A grid of digits in which no two cells that share a unit hold the same
/// digit is solved.
pub proof fn lemma_peers_differ_solution(g: Grid)
    requires
        is_grid(g),
        peers_differ(g),
    ensures
        is_solution(g),
{
    assert forall|i: int| 0 <= i < 9 implies each_digit_once(g, #[trigger] row_cells(i)) by {
        lemma_row_is_unit(i);
        lemma_unit_complete(g, row_cells(i));
    }
    assert forall|j: int| 0 <= j < 9 implies each_digit_once(g, #[trigger] col_cells(j)) by {
        lemma_col_is_unit(j);
        lemma_unit_complete(g, col_cells(j));
    }
    assert forall|a: int, b: int| 0 <= a < 3 && 0 <= b < 3 implies each_digit_once(
        g,
        #[trigger] block_cells(3 * a, 3 * b),
    ) by {
        lemma_block_is_unit(a, b);
        lemma_unit_complete(g, block_cells(3 * a, 3 * b));
    }
}

} // verus!
