//! The search for the completions of a puzzle, as mathematics: what one pass
//! of elimination does to the candidates, where elimination ends, which cell
//! the search then branches on, and the grids that it finds, in order.

use vstd::prelude::*;
use crate::candidates::{
    admits, all_single, eliminate, grid_of, initial, lemma_within_both, lemma_within_lighter,
    lemma_within_same_or_lighter, lemma_within_trans, lemma_within_weight, pin, weight, well_formed, within,
    Candidates,
};
use crate::rules::{
    digits, in_grid, is_completion, is_grid, is_puzzle, is_solution, keeps_clues, lemma_digits,
    lemma_peers_differ_solution, lemma_single, lemma_solution_peers_differ, peers, Clues, Grid,
};

verus! {

/// What the cell `(i, j)` tells its neighbours: once it has one digit left,
/// none of them may hold that digit.
pub open spec fn scan_cell(c: Candidates, i: int, j: int) -> Candidates {
    if c[i][j].len() == 1 {
        eliminate(c, i, j, c[i][j].choose())
    } else {
        c
    }
}

/// The candidates after the first `k` cells, taken row by row, have each told
/// their neighbours.
pub open spec fn scan_prefix(c: Candidates, k: int) -> Candidates
    decreases k,
{
    if k <= 0 {
        c
    } else {
        let before = scan_prefix(c, k - 1);
        scan_cell(before, (k - 1) / 9, (k - 1) % 9)
    }
}

/// One pass over all 81 cells.
pub open spec fn sweep_pass(c: Candidates) -> Candidates {
    scan_prefix(c, 81)
}

/// Passes repeated until one changes nothing.
pub open spec fn propagate(c: Candidates) -> Candidates
    decreases weight(c),
{
    if well_formed(c) && sweep_pass(c) != c {
        proof {
            lemma_pass_lighter(c);
        }
        propagate(sweep_pass(c))
    } else {
        c
    }
}

/// The cell `(i, j)` is not yet decided: it has no digit left, or several.
pub open spec fn undecided(c: Candidates, i: int, j: int) -> bool {
    in_grid(i, j) && c[i][j].len() != 1
}

/// The search would rather branch on `(i, j)` than on `(r, q)`: it has fewer
/// digits left, or as many and comes no later, row by row.
pub open spec fn prefers(c: Candidates, i: int, j: int, r: int, q: int) -> bool {
    ||| c[i][j].len() < c[r][q].len()
    ||| c[i][j].len() == c[r][q].len() && 9 * i + j <= 9 * r + q
}

/// `(i, j)` is the cell that the search branches on: the first, row by row,
/// of the undecided cells with the fewest digits left.
pub open spec fn is_branch_cell(c: Candidates, i: int, j: int) -> bool {
    &&& undecided(c, i, j)
    &&& forall|r: int, q: int| #[trigger] undecided(c, r, q) ==> prefers(c, i, j, r, q)
}

/// The cell that the search branches on.
pub open spec fn branch_cell(c: Candidates) -> (int, int) {
    choose|cell: (int, int)| is_branch_cell(c, cell.0, cell.1)
}

/// The digit `d` is one that the search tries in the cell `(i, j)`.
pub open spec fn can_branch(c: Candidates, i: int, j: int, d: int) -> bool {
    &&& well_formed(c)
    &&& undecided(c, i, j)
    &&& 0 <= d < 9
    &&& c[i][j].contains(d)
}

/// The grids that the search finds from the candidates `c`, in the order in
/// which it finds them: elimination first; then, unless every cell is
/// decided, one branch for each digit of the branch cell, in ascending order.
///
/// Candidates that are no 9×9 grid of sets of digits yield nothing.
pub open spec fn search(c: Candidates) -> Seq<Grid>
    decreases weight(c), 10int,
{
    if !well_formed(c) {
        Seq::empty()
    } else {
        let p = propagate(c);
        if all_single(p) {
            seq![grid_of(p)]
        } else {
            proof {
                lemma_propagate(c);
            }
            branches(p, branch_cell(p).0, branch_cell(p).1, 0)
        }
    }
}

/// The grids that the search finds in the branches of the cell `(i, j)` for
/// the digits from `d` up.
pub open spec fn branches(c: Candidates, i: int, j: int, d: int) -> Seq<Grid>
    decreases weight(c), 9 - d,
{
    if d < 0 || d >= 9 {
        Seq::empty()
    } else if can_branch(c, i, j, d) {
        proof {
            lemma_pin_lighter(c, i, j, d);
        }
        search(pin(c, i, j, d)) + branches(c, i, j, d + 1)
    } else {
        branches(c, i, j, d + 1)
    }
}

/// The grids that solve the puzzle `clues`, in the order in which the search
/// finds them.
pub open spec fn solutions(clues: Clues) -> Seq<Grid> {
    search(initial(clues))
}

/// Elimination narrows the candidates.
pub proof fn lemma_eliminate_within(c: Candidates, i: int, j: int, n: int)
    requires
        well_formed(c),
    ensures
        well_formed(eliminate(c, i, j, n)),
        within(eliminate(c, i, j, n), c),
{
}

/// What a cell tells its neighbours narrows the candidates.
pub proof fn lemma_scan_cell_within(c: Candidates, i: int, j: int)
    requires
        well_formed(c),
    ensures
        well_formed(scan_cell(c, i, j)),
        within(scan_cell(c, i, j), c),
{
    if c[i][j].len() == 1 {
        lemma_eliminate_within(c, i, j, c[i][j].choose());
    }
}

/// Scanning further narrows the candidates further.
pub proof fn lemma_scan_prefix_within(c: Candidates, a: int, b: int)
    requires
        well_formed(c),
        a <= b,
    ensures
        well_formed(scan_prefix(c, b)),
        within(scan_prefix(c, b), scan_prefix(c, a)),
    decreases b - a,
{
    if a < b {
        lemma_scan_prefix_within(c, a, b - 1);
        if b > 0 {
            lemma_scan_cell_within(scan_prefix(c, b - 1), (b - 1) / 9, (b - 1) % 9);
            lemma_within_trans(scan_prefix(c, b), scan_prefix(c, b - 1), scan_prefix(c, a));
        }
    } else {
        lemma_scan_prefix_zero(c, a);
    }
}

/// A scan leaves a 9×9 grid of sets of digits.
proof fn lemma_scan_prefix_zero(c: Candidates, a: int)
    requires
        well_formed(c),
    ensures
        well_formed(scan_prefix(c, a)),
    decreases a,
{
    if a > 0 {
        lemma_scan_prefix_zero(c, a - 1);
        lemma_scan_cell_within(scan_prefix(c, a - 1), (a - 1) / 9, (a - 1) % 9);
    }
}

/// A pass that changes the candidates takes weight away.
pub proof fn lemma_pass_lighter(c: Candidates)
    requires
        well_formed(c),
    ensures
        well_formed(sweep_pass(c)),
        within(sweep_pass(c), c),
        sweep_pass(c) == c || weight(sweep_pass(c)) < weight(c),
{
    lemma_scan_prefix_within(c, 0, 81);
    lemma_within_same_or_lighter(sweep_pass(c), c);
}

/// Where elimination ends, the candidates are narrower and a further pass
/// changes nothing.
pub proof fn lemma_propagate(c: Candidates)
    requires
        well_formed(c),
    ensures
        well_formed(propagate(c)),
        within(propagate(c), c),
        sweep_pass(propagate(c)) == propagate(c),
        weight(propagate(c)) <= weight(c),
    decreases weight(c),
{
    if sweep_pass(c) != c {
        lemma_pass_lighter(c);
        lemma_propagate(sweep_pass(c));
        lemma_within_trans(propagate(c), sweep_pass(c), c);
    }
    lemma_within_weight(propagate(c), c);
}

/// To try a digit in an undecided cell takes weight away.
pub proof fn lemma_pin_lighter(c: Candidates, i: int, j: int, d: int)
    requires
        can_branch(c, i, j, d),
    ensures
        well_formed(pin(c, i, j, d)),
        within(pin(c, i, j, d), c),
        weight(pin(c, i, j, d)) < weight(c),
{
    let cell = c[i][j];
    lemma_digits(cell);
    let other = cell.remove(d).choose();
    assert(cell.remove(d).contains(other));
    lemma_within_lighter(pin(c, i, j, d), c, i, j, other);
}

/// What a cell tells its neighbours rules out no solved grid.
pub proof fn lemma_scan_cell_keeps(c: Candidates, i: int, j: int, g: Grid)
    requires
        well_formed(c),
        in_grid(i, j),
        is_solution(g),
        admits(c, g),
    ensures
        admits(scan_cell(c, i, j), g),
{
    if c[i][j].len() == 1 {
        let n = c[i][j].choose();
        lemma_digits(c[i][j]);
        lemma_single(c[i][j]);
        lemma_solution_peers_differ(g);
        let e = eliminate(c, i, j, n);
        assert forall|r: int, q: int| in_grid(r, q) implies (#[trigger] e[r][q]).contains(g[r][q]) by {}
    }
}

/// A scan rules out no solved grid.
pub proof fn lemma_scan_prefix_keeps(c: Candidates, k: int, g: Grid)
    requires
        well_formed(c),
        k <= 81,
        is_solution(g),
        admits(c, g),
    ensures
        admits(scan_prefix(c, k), g),
    decreases k,
{
    if k > 0 {
        lemma_scan_prefix_keeps(c, k - 1, g);
        lemma_scan_prefix_within(c, 0, k - 1);
        lemma_scan_cell_keeps(scan_prefix(c, k - 1), (k - 1) / 9, (k - 1) % 9, g);
    }
}

/// Elimination neither rules out a solved grid nor lets one in.
pub proof fn lemma_propagate_keeps(c: Candidates, g: Grid)
    requires
        well_formed(c),
        is_solution(g),
    ensures
        admits(propagate(c), g) == admits(c, g),
    decreases weight(c),
{
    lemma_propagate(c);
    if admits(propagate(c), g) {
        assert forall|i: int, j: int| in_grid(i, j) implies (#[trigger] c[i][j]).contains(g[i][j]) by {
            assert(propagate(c)[i][j].contains(g[i][j]));
        }
    }
    if admits(c, g) && sweep_pass(c) != c {
        lemma_pass_lighter(c);
        lemma_scan_prefix_keeps(c, 81, g);
        lemma_propagate_keeps(sweep_pass(c), g);
    }
}

/// Where a pass changes nothing, no cell has anything to tell.
pub proof fn lemma_stable_steps(c: Candidates, k: int)
    requires
        well_formed(c),
        sweep_pass(c) == c,
        0 <= k < 81,
    ensures
        scan_cell(c, k / 9, k % 9) == c,
{
    lemma_scan_prefix_within(c, 0, k);
    lemma_scan_prefix_within(c, 0, k + 1);
    lemma_scan_prefix_within(c, k, 81);
    lemma_scan_prefix_within(c, k + 1, 81);
    lemma_within_both(scan_prefix(c, k), c);
    lemma_within_both(scan_prefix(c, k + 1), c);
}

/// Where a pass changes nothing and every cell is decided, the grid is
/// solved, and it is the only one that the candidates admit.
pub proof fn lemma_stable_single_solved(c: Candidates)
    requires
        well_formed(c),
        sweep_pass(c) == c,
        all_single(c),
    ensures
        is_solution(grid_of(c)),
        admits(c, grid_of(c)),
        forall|g: Grid| is_grid(g) && admits(c, g) ==> g == grid_of(c),
{
    let s = grid_of(c);
    assert forall|i: int, j: int| in_grid(i, j) implies c[i][j] == set![#[trigger] s[i][j]] by {
        lemma_digits(c[i][j]);
        lemma_single(c[i][j]);
    }
    assert forall|i: int, j: int| in_grid(i, j) implies 0 <= #[trigger] s[i][j] < 9 by {
        assert(c[i][j].contains(s[i][j]));
    }
    assert forall|i: int, j: int, r: int, q: int| peers(i, j, r, q) implies #[trigger] s[i][j]
        != #[trigger] s[r][q] by {
        lemma_stable_steps(c, 9 * i + j);
    }
    lemma_peers_differ_solution(s);
    assert forall|i: int, j: int| in_grid(i, j) implies (#[trigger] c[i][j]).contains(s[i][j]) by {}
    assert forall|g: Grid| is_grid(g) && admits(c, g) implies g == s by {
        assert forall|i: int| 0 <= i < 9 implies #[trigger] g[i] =~= s[i] by {
            assert forall|j: int| 0 <= j < 9 implies g[i][j] == s[i][j] by {}
        }
    }
}

/// The place of a cell in the order of choice: fewer digits first, then row
/// by row.
spec fn rank(c: Candidates, i: int, j: int) -> int {
    81 * c[i][j].len() + 9 * i + j
}

/// Among the undecided cells there is one that comes first in the order of
/// choice.
proof fn lemma_least_rank(c: Candidates, bound: int)
    requires
        exists|i: int, j: int| #[trigger] undecided(c, i, j) && rank(c, i, j) <= bound,
    ensures
        exists|i: int, j: int| is_branch_cell(c, i, j),
    decreases bound,
{
    if exists|i: int, j: int| #[trigger] undecided(c, i, j) && rank(c, i, j) <= bound - 1 {
        lemma_least_rank(c, bound - 1);
    } else {
        let (i, j) = choose|i: int, j: int| #[trigger] undecided(c, i, j) && rank(c, i, j) <= bound;
        assert forall|r: int, q: int| #[trigger] undecided(c, r, q) implies prefers(c, i, j, r, q) by {}
        assert(is_branch_cell(c, i, j));
    }
}

/// Unless every cell is decided, there is a cell to branch on, and one only.
pub proof fn lemma_branch_cell(c: Candidates)
    requires
        !all_single(c),
    ensures
        is_branch_cell(c, branch_cell(c).0, branch_cell(c).1),
        forall|i: int, j: int| is_branch_cell(c, i, j) ==> (i, j) == branch_cell(c),
{
    let (i, j) = choose|i: int, j: int| in_grid(i, j) && (#[trigger] c[i][j]).len() != 1;
    assert(undecided(c, i, j));
    lemma_least_rank(c, rank(c, i, j));
    let (a, b) = choose|a: int, b: int| is_branch_cell(c, a, b);
    assert(is_branch_cell(c, branch_cell(c).0, branch_cell(c).1));
}

/// The search finds the solved grids that the candidates admit, and no
/// other grid.
pub proof fn lemma_search_finds(c: Candidates, g: Grid)
    requires
        well_formed(c),
    ensures
        search(c).contains(g) <==> is_solution(g) && admits(c, g),
    decreases weight(c), 10int,
{
    let p = propagate(c);
    lemma_propagate(c);
    if is_solution(g) {
        lemma_propagate_keeps(c, g);
    }
    if all_single(p) {
        lemma_stable_single_solved(p);
        assert(seq![grid_of(p)][0] == grid_of(p));
        if search(c).contains(g) {
            lemma_propagate_keeps(c, g);
        }
    } else {
        lemma_branch_cell(p);
        let (i, j) = branch_cell(p);
        lemma_branches_find(p, i, j, 0, g);
    }
}

/// The branches for the digits from `d` up find the solved grids that the
/// candidates admit and that hold such a digit in the branch cell.
pub proof fn lemma_branches_find(c: Candidates, i: int, j: int, d: int, g: Grid)
    requires
        well_formed(c),
        undecided(c, i, j),
        0 <= d,
    ensures
        branches(c, i, j, d).contains(g) <==> is_solution(g) && admits(c, g) && g[i][j] >= d,
    decreases weight(c), 9 - d,
{
    if d < 9 {
        lemma_branches_find(c, i, j, d + 1, g);
        if can_branch(c, i, j, d) {
            let narrowed = pin(c, i, j, d);
            lemma_pin_lighter(c, i, j, d);
            lemma_search_finds(narrowed, g);
            lemma_pin_admits(c, i, j, d, g);
            vstd::seq_lib::lemma_seq_concat_contains_all_elements(search(narrowed), branches(c, i, j, d + 1), g);
        }
    }
}

/// With a digit tried in a cell, the candidates admit the grids that they
/// admitted before and that hold the digit in the cell.
pub proof fn lemma_pin_admits(c: Candidates, i: int, j: int, d: int, g: Grid)
    requires
        in_grid(i, j),
        c[i][j].contains(d),
    ensures
        admits(pin(c, i, j, d), g) <==> admits(c, g) && g[i][j] == d,
{
    let narrowed = pin(c, i, j, d);
    if admits(narrowed, g) {
        assert(narrowed[i][j].contains(g[i][j]));
        assert forall|r: int, q: int| in_grid(r, q) implies (#[trigger] c[r][q]).contains(g[r][q]) by {
            assert(narrowed[r][q].contains(g[r][q]));
        }
    }
    if admits(c, g) && g[i][j] == d {
        assert forall|r: int, q: int| in_grid(r, q) implies (#[trigger] narrowed[r][q]).contains(g[r][q]) by {}
    }
}

/// The search finds no grid twice.
pub proof fn lemma_search_no_repeats(c: Candidates)
    ensures
        search(c).no_duplicates(),
    decreases weight(c), 10int,
{
    if well_formed(c) {
        let p = propagate(c);
        lemma_propagate(c);
        if !all_single(p) {
            lemma_branch_cell(p);
            lemma_branches_no_repeats(p, branch_cell(p).0, branch_cell(p).1, 0);
        }
    }
}

/// The branches of a cell find no grid twice.
pub proof fn lemma_branches_no_repeats(c: Candidates, i: int, j: int, d: int)
    requires
        well_formed(c),
        undecided(c, i, j),
        0 <= d,
    ensures
        branches(c, i, j, d).no_duplicates(),
    decreases weight(c), 9 - d,
{
    if d < 9 {
        lemma_branches_no_repeats(c, i, j, d + 1);
        if can_branch(c, i, j, d) {
            let narrowed = pin(c, i, j, d);
            let first = search(narrowed);
            let rest = branches(c, i, j, d + 1);
            lemma_pin_lighter(c, i, j, d);
            lemma_search_no_repeats(narrowed);
            assert forall|a: int, b: int| 0 <= a < first.len() && 0 <= b < rest.len() implies first[a] != rest[b] by {
                lemma_search_finds(narrowed, first[a]);
                lemma_pin_admits(c, i, j, d, first[a]);
                lemma_branches_find(c, i, j, d + 1, rest[b]);
            }
            vstd::seq_lib::lemma_no_dup_in_concat(first, rest);
        }
    }
}

/// The search finds the grids that solve the puzzle, each of them once.
pub proof fn lemma_solutions(clues: Clues)
    requires
        is_puzzle(clues),
    ensures
        solutions(clues).no_duplicates(),
        forall|g: Grid| #[trigger] solutions(clues).contains(g) <==> is_completion(clues, g),
        solutions(clues).len() == 0 <==> forall|g: Grid| !is_completion(clues, g),
{
    let c = initial(clues);
    lemma_search_no_repeats(c);
    assert forall|g: Grid| #[trigger] solutions(clues).contains(g) <==> is_completion(clues, g) by {
        lemma_search_finds(c, g);
        if is_solution(g) {
            if admits(c, g) {
                assert forall|i: int, j: int| in_grid(i, j) && (#[trigger] clues[i][j]) is Some implies g[i][j]
                    == clues[i][j]->0 by {
                    assert(c[i][j].contains(g[i][j]));
                }
            }
            if keeps_clues(clues, g) {
                assert forall|i: int, j: int| in_grid(i, j) implies (#[trigger] c[i][j]).contains(g[i][j]) by {}
            }
        }
    }
    if solutions(clues).len() > 0 {
        assert(solutions(clues).contains(solutions(clues)[0]));
    } else {
        assert forall|g: Grid| !is_completion(clues, g) by {
            assert(!solutions(clues).contains(g));
        }
    }
}

/// The search of the blank puzzle finds every solved grid there is, each of
/// them once.
pub proof fn lemma_blank_puzzle(clues: Clues)
    requires
        is_puzzle(clues),
        forall|i: int, j: int| in_grid(i, j) ==> (#[trigger] clues[i][j]) is None,
    ensures
        solutions(clues).no_duplicates(),
        forall|g: Grid| #[trigger] solutions(clues).contains(g) <==> is_solution(g),
{
    lemma_solutions(clues);
}

} // verus!
