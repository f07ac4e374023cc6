//! The solving engine: elimination to a fixed point, then a search that
//! branches on the most constrained cell.

use vstd::prelude::*;
use crate::board::{Board, SolvingCell, N, N_BLOCK};
use crate::candidates::{
    all_single, initial, lemma_strike_all, lemma_strike_block_rows, lemma_strike_block_step, lemma_strike_col_step,
    lemma_strike_row_step, lemma_within_lighter, lemma_within_same_or_lighter, lemma_within_weight, pin,
    strike_block, strike_cell, strike_col, strike_row, weight, well_formed, within,
};
use crate::rules::{in_grid, is_completion, is_puzzle, is_solution, lemma_digits, lemma_single, Grid};
use crate::search::{
    branch_cell, branches, lemma_branch_cell, lemma_pass_lighter, lemma_pin_lighter, lemma_propagate,
    lemma_scan_cell_within, lemma_scan_prefix_within, lemma_solutions, lemma_stable_single_solved, prefers,
    propagate, scan_cell, scan_prefix, search, solutions, sweep_pass, undecided,
};

verus! {

/// Where the solver hands the grids that it finds.
pub trait SolutionSink {
    /// The grids handed over so far, oldest first.
    spec fn reported(&self) -> Seq<Grid>;

    /// Takes one more grid, which is a solved one.
    fn report(&mut self, solution: Board<usize>)
        requires
            is_solution(solution@),
        ensures
            final(self).reported() == old(self).reported().push(solution@),
    ;
}

/// A vector takes each grid at its end.
impl SolutionSink for Vec<Board<usize>> {
    open spec fn reported(&self) -> Seq<Grid> {
        self@.map_values(|b: Board<usize>| b@)
    }

    fn report(&mut self, solution: Board<usize>) {
        self.push(solution);
    }
}

/// A sink that calls a function on each grid, and keeps note of the grids
/// that it has called it on.
pub struct Callback<F: Fn(Board<usize>)> {
    f: F,
    seen: Ghost<Seq<Grid>>,
}

impl<F: Fn(Board<usize>)> Callback<F> {
    /// The function can be called on any solved grid.
    #[verifier::type_invariant]
    spec fn takes_solutions(self) -> bool {
        forall|solution: Board<usize>| is_solution(solution@) ==> call_requires(self.f, (solution,))
    }

    /// The function that the sink calls.
    pub closed spec fn callee(&self) -> F {
        self.f
    }

    /// A sink that calls `f`, which takes any solved grid; nothing is
    /// reported yet.
    pub fn new(f: F) -> (sink: Self)
        requires
            forall|solution: Board<usize>| is_solution(solution@) ==> call_requires(f, (solution,)),
        ensures
            sink.callee() == f,
            sink.reported() == Seq::<Grid>::empty(),
    {
        Callback { f, seen: Ghost(Seq::empty()) }
    }
}

impl<F: Fn(Board<usize>)> SolutionSink for Callback<F> {
    /// The grids that the function was called on, oldest first.
    closed spec fn reported(&self) -> Seq<Grid> {
        self.seen@
    }

    /// Calls the function on the grid, and keeps the function.
    fn report(&mut self, solution: Board<usize>)
        ensures
            final(self).callee() == old(self).callee(),
            call_ensures(old(self).callee(), (solution,), ()),
    {
        proof {
            use_type_invariant(&*self);
        }
        (self.f)(solution);
        self.seen = Ghost(self.seen@.push(solution@));
    }
}

/// What striking `n` from the cell `(r, q)` does to the board as a whole.
proof fn lemma_struck(before: Board<SolvingCell>, after: Board<SolvingCell>, r: int, q: int, n: int, changed: bool)
    requires
        in_grid(r, q),
        0 <= n < 9,
        changed == before.0[r][q]@.contains(n),
        after.0[r][q]@ == before.0[r][q]@.remove(n),
        after.0[r][q].pending() == (before.0[r][q].pending() || changed),
        forall|a: int, b: int| in_grid(a, b) && (a != r || b != q) ==> #[trigger] after.0[a][b] == before.0[a][b],
    ensures
        after@ == strike_cell(before@, r, q, n),
        after.flagged_since(before),
        within(after@, before@),
        changed ==> weight(after@) < weight(before@),
        !changed ==> after@ == before@,
{
    assert(after@ =~~= strike_cell(before@, r, q, n));
    if changed {
        lemma_within_lighter(after@, before@, r, q, n);
    } else {
        assert(after.0[r][q]@ =~= before.0[r][q]@);
        assert(after@ =~~= before@);
    }
    assert forall|a: int, b: int| in_grid(a, b) implies (#[trigger] after.0[a][b]).pending() == (
        before.0[a][b].pending() || after.0[a][b]@ != before.0[a][b]@
    ) by {}
}

/// Strikes `n` from the rest of the row of `(i, j)`.
fn filter_row(board: &mut Board<SolvingCell>, i: usize, j: usize, n: usize) -> (changed: bool)
    requires
        i < N,
        j < N,
        n < N,
    ensures
        final(board)@ == strike_row(old(board)@, i as int, j as int, n as int, 9),
        final(board).flagged_since(*old(board)),
        changed == (final(board)@ != old(board)@),
{
    let mut has_update = false;
    let mut j2: usize = 0;
    proof {
        board.lemma_well_formed();
        lemma_strike_row_step(board@, i as int, j as int, n as int, 0);
    }
    while j2 < N
        invariant
            i < N,
            j < N,
            n < N,
            j2 <= N,
            well_formed(old(board)@),
            board@ == strike_row(old(board)@, i as int, j as int, n as int, j2 as int),
            board.flagged_since(*old(board)),
            within(board@, old(board)@),
            has_update ==> weight(board@) < weight(old(board)@),
            !has_update ==> board@ == old(board)@,
        decreases N - j2,
    {
        proof {
            lemma_strike_row_step(old(board)@, i as int, j as int, n as int, j2 as int);
        }
        if j != j2 {
            let ghost before = *board;
            let changed = board.0[i][j2].remove(n);
            has_update = has_update || changed;
            proof {
                lemma_struck(before, *board, i as int, j2 as int, n as int, changed);
                board.lemma_flagged_trans(before, *old(board));
                lemma_within_weight(before@, old(board)@);
            }
        }
        j2 += 1;
    }
    has_update
}

/// Strikes `n` from the rest of the column of `(i, j)`.
fn filter_col(board: &mut Board<SolvingCell>, i: usize, j: usize, n: usize) -> (changed: bool)
    requires
        i < N,
        j < N,
        n < N,
    ensures
        final(board)@ == strike_col(old(board)@, i as int, j as int, n as int, 9),
        final(board).flagged_since(*old(board)),
        changed == (final(board)@ != old(board)@),
{
    let mut has_update = false;
    let mut i2: usize = 0;
    proof {
        board.lemma_well_formed();
        lemma_strike_col_step(board@, i as int, j as int, n as int, 0);
    }
    while i2 < N
        invariant
            i < N,
            j < N,
            n < N,
            i2 <= N,
            well_formed(old(board)@),
            board@ == strike_col(old(board)@, i as int, j as int, n as int, i2 as int),
            board.flagged_since(*old(board)),
            within(board@, old(board)@),
            has_update ==> weight(board@) < weight(old(board)@),
            !has_update ==> board@ == old(board)@,
        decreases N - i2,
    {
        proof {
            lemma_strike_col_step(old(board)@, i as int, j as int, n as int, i2 as int);
        }
        if i != i2 {
            let ghost before = *board;
            let changed = board.0[i2][j].remove(n);
            has_update = has_update || changed;
            proof {
                lemma_struck(before, *board, i2 as int, j as int, n as int, changed);
                board.lemma_flagged_trans(before, *old(board));
                lemma_within_weight(before@, old(board)@);
            }
        }
        i2 += 1;
    }
    has_update
}

/// Strikes `n` from the cells of the block of `(i, j)` that stand neither in
/// its row nor in its column.
fn filter_block(board: &mut Board<SolvingCell>, i: usize, j: usize, n: usize) -> (changed: bool)
    requires
        i < N,
        j < N,
        n < N,
    ensures
        final(board)@ == strike_block(old(board)@, i as int, j as int, n as int, 9, 0),
        final(board).flagged_since(*old(board)),
        changed == (final(board)@ != old(board)@),
{
    let top = i / N_BLOCK * N_BLOCK;
    let bottom = top + N_BLOCK;
    let left = j / N_BLOCK * N_BLOCK;
    let right = left + N_BLOCK;
    let mut has_update = false;
    let mut i2: usize = top;
    proof {
        board.lemma_well_formed();
        lemma_strike_block_rows(board@, i as int, j as int, n as int, i as int);
    }
    while i2 < bottom
        invariant
            i < N,
            j < N,
            n < N,
            top == i / 3 * 3,
            bottom == top + 3,
            left == j / 3 * 3,
            right == left + 3,
            top <= i2 <= bottom,
            well_formed(old(board)@),
            board@ == strike_block(old(board)@, i as int, j as int, n as int, i2 as int, 0),
            board.flagged_since(*old(board)),
            within(board@, old(board)@),
            has_update ==> weight(board@) < weight(old(board)@),
            !has_update ==> board@ == old(board)@,
        decreases bottom - i2,
    {
        proof {
            lemma_strike_block_rows(old(board)@, i as int, j as int, n as int, i2 as int);
        }
        if i != i2 {
            let mut j2: usize = left;
            while j2 < right
                invariant
                    i < N,
                    j < N,
                    n < N,
                    top == i / 3 * 3,
                    bottom == top + 3,
                    left == j / 3 * 3,
                    right == left + 3,
                    top <= i2 < bottom,
                    i != i2,
                    left <= j2 <= right,
                    well_formed(old(board)@),
                    board@ == strike_block(old(board)@, i as int, j as int, n as int, i2 as int, j2 as int),
                    board.flagged_since(*old(board)),
                    within(board@, old(board)@),
                    has_update ==> weight(board@) < weight(old(board)@),
                    !has_update ==> board@ == old(board)@,
                decreases right - j2,
            {
                proof {
                    lemma_strike_block_step(old(board)@, i as int, j as int, n as int, i2 as int, j2 as int);
                }
                if j != j2 {
                    let ghost before = *board;
                    let changed = board.0[i2][j2].remove(n);
                    has_update = has_update || changed;
                    proof {
                        lemma_struck(before, *board, i2 as int, j2 as int, n as int, changed);
                        board.lemma_flagged_trans(before, *old(board));
                        lemma_within_weight(before@, old(board)@);
                    }
                }
                j2 += 1;
            }
        }
        i2 += 1;
    }
    proof {
        lemma_strike_block_rows(old(board)@, i as int, j as int, n as int, i as int);
    }
    has_update
}

/// Lets the cell `(i, j)` tell its neighbours what it has learned: once it
/// has one digit left, none of them may hold that digit.
fn examine_cell(board: &mut Board<SolvingCell>, i: usize, j: usize) -> (changed: bool)
    requires
        i < N,
        j < N,
    ensures
        final(board)@ == if old(board).0[i as int][j as int].pending() {
            scan_cell(old(board)@, i as int, j as int)
        } else {
            old(board)@
        },
        old(board).tracks_changes() ==> final(board)@ == scan_cell(old(board)@, i as int, j as int),
        final(board).flagged_since(*old(board)),
        changed == (final(board)@ != old(board)@),
{
    proof {
        board.lemma_well_formed();
        lemma_digits(board@[i as int][j as int]);
    }
    if !board.0[i][j].has_update() {
        return false;
    }
    match board.0[i][j].get_unique() {
        None => false,
        Some(n) => {
            let ghost start = *board;
            proof {
                lemma_single(start@[i as int][j as int]);
                lemma_strike_all(start@, i as int, j as int, n as int);
            }
            let in_row = filter_row(board, i, j, n);
            let ghost after_row = *board;
            let in_col = filter_col(board, i, j, n);
            let ghost after_col = *board;
            let in_block = filter_block(board, i, j, n);
            proof {
                start.lemma_well_formed();
                after_row.lemma_well_formed();
                after_col.lemma_well_formed();
                board.lemma_well_formed();
                lemma_within_same_or_lighter(after_row@, start@);
                lemma_within_same_or_lighter(after_col@, after_row@);
                lemma_within_same_or_lighter(board@, after_col@);
                after_col.lemma_flagged_trans(after_row, start);
                board.lemma_flagged_trans(after_col, start);
            }
            in_row || in_col || in_block
        },
    }
}

/// One pass over the grid, in which each cell in turn tells its neighbours
/// what it has learned. Says whether the pass struck any digit.
fn sweep(board: &mut Board<SolvingCell>) -> (changed: bool)
    requires
        old(board).tracks_changes(),
    ensures
        final(board)@ == sweep_pass(old(board)@),
        final(board).flagged_since(*old(board)),
        final(board).tracks_changes(),
        changed == (final(board)@ != old(board)@),
{
    let mut has_update = false;
    let mut i: usize = 0;
    proof {
        board.lemma_well_formed();
    }
    while i < N
        invariant
            i <= N,
            well_formed(old(board)@),
            board@ == scan_prefix(old(board)@, 9 * i),
            board.flagged_since(*old(board)),
            board.tracks_changes(),
            has_update ==> weight(board@) < weight(old(board)@),
            !has_update ==> board@ == old(board)@,
        decreases N - i,
    {
        let mut j: usize = 0;
        while j < N
            invariant
                i < N,
                j <= N,
                well_formed(old(board)@),
                board@ == scan_prefix(old(board)@, 9 * i + j),
                board.flagged_since(*old(board)),
                board.tracks_changes(),
                has_update ==> weight(board@) < weight(old(board)@),
                !has_update ==> board@ == old(board)@,
            decreases N - j,
        {
            let ghost before = *board;
            let changed = examine_cell(board, i, j);
            has_update = has_update || changed;
            proof {
                lemma_scan_prefix_within(old(board)@, 0, 9 * i + j);
                lemma_scan_cell_within(before@, i as int, j as int);
                lemma_within_same_or_lighter(board@, before@);
                board.lemma_flagged_trans(before, *old(board));
                board.lemma_flagged_tracks(before);
            }
            j += 1;
        }
        i += 1;
    }
    has_update
}

/// Branches on the first of the undecided cells with the fewest digits
/// left: tries each of its digits in turn, in ascending order, on a copy of
/// the board, and reports what the search finds there.
fn case_analysis<S: SolutionSink>(board: Board<SolvingCell>, sink: &mut S)
    requires
        board.tracks_changes(),
        !all_single(board@),
    ensures
        final(sink).reported() == old(sink).reported()
            + branches(board@, branch_cell(board@).0, branch_cell(board@).1, 0),
    decreases weight(board@), 0int,
{
    proof {
        board.lemma_well_formed();
    }
    // Find the cell to branch on.
    let mut best_i: usize = 0;
    let mut best_j: usize = 0;
    let mut best_count: usize = N + 1;
    let mut i: usize = 0;
    while i < N
        invariant
            i <= N,
            best_i < N,
            best_j < N,
            best_count <= N + 1,
            best_count <= N ==> undecided(board@, best_i as int, best_j as int) && best_count
                == board@[best_i as int][best_j as int].len() && best_i < i,
            forall|r: int, q: int|
                0 <= r < i && 0 <= q < 9 && #[trigger] undecided(board@, r, q) ==> best_count <= N
                    && prefers(board@, best_i as int, best_j as int, r, q),
        decreases N - i,
    {
        let mut j: usize = 0;
        while j < N
            invariant
                i < N,
                j <= N,
                best_i < N,
                best_j < N,
                best_count <= N + 1,
                best_count <= N ==> undecided(board@, best_i as int, best_j as int) && best_count
                    == board@[best_i as int][best_j as int].len() && (best_i < i || best_i == i && best_j < j),
                forall|r: int, q: int|
                    (0 <= r < i && 0 <= q < 9 || r == i && 0 <= q < j) && #[trigger] undecided(board@, r, q)
                        ==> best_count <= N && prefers(board@, best_i as int, best_j as int, r, q),
            decreases N - j,
        {
            let count = board.0[i][j].count();
            proof {
                board.0[i as int][j as int].lemma_in_domain();
            }
            if count != 1 && count < best_count {
                best_i = i;
                best_j = j;
                best_count = count;
            }
            j += 1;
        }
        i += 1;
    }
    proof {
        lemma_branch_cell(board@);
    }
    // Try each of its digits.
    let mut d: usize = 0;
    while d < N
        invariant
            d <= N,
            best_i < N,
            best_j < N,
            board.tracks_changes(),
            well_formed(board@),
            undecided(board@, best_i as int, best_j as int),
            sink.reported() + branches(board@, best_i as int, best_j as int, d as int) == old(sink).reported()
                + branches(board@, best_i as int, best_j as int, 0),
        decreases N - d,
    {
        if board.0[best_i][best_j].can_be(d) {
            let mut narrowed = board;
            narrowed.0[best_i][best_j] = SolvingCell::new(Some(d));
            proof {
                lemma_pin_lighter(board@, best_i as int, best_j as int, d as int);
                assert(narrowed@ =~~= pin(board@, best_i as int, best_j as int, d as int));
            }
            solve(narrowed, sink);
        }
        d += 1;
    }
}

/// Narrows the board by elimination until a pass changes nothing; reports
/// the grid if every cell is then decided, and branches if not.
fn solve<S: SolutionSink>(board: Board<SolvingCell>, sink: &mut S)
    requires
        board.tracks_changes(),
    ensures
        final(sink).reported() == old(sink).reported() + search(board@),
    decreases weight(board@), 1int,
{
    let mut board = board;
    let ghost start = board@;
    proof {
        board.lemma_well_formed();
    }
    loop
        invariant_except_break
            well_formed(board@),
            board.tracks_changes(),
            propagate(board@) == propagate(start),
            weight(board@) <= weight(start),
        ensures
            well_formed(board@),
            board.tracks_changes(),
            board@ == propagate(start),
            weight(board@) <= weight(start),
        decreases weight(board@),
    {
        let ghost before = board@;
        let changed = sweep(&mut board);
        proof {
            lemma_pass_lighter(before);
        }
        if !changed {
            break;
        }
    }
    match board.to_solution() {
        Some(solution) => {
            proof {
                lemma_propagate(start);
                lemma_stable_single_solved(board@);
            }
            sink.report(solution);
        },
        None => {
            case_analysis(board, sink);
        },
    }
}

/// Reports to `sink` every grid that solves the puzzle `problem`, each of
/// them once, in the order in which the search finds them.
///
/// Nothing is reported for a puzzle that no grid solves.
pub fn for_each_solution<S: SolutionSink>(problem: &Board<Option<usize>>, sink: &mut S)
    requires
        is_puzzle(problem@),
    ensures
        final(sink).reported() == old(sink).reported() + solutions(problem@),
        solutions(problem@).no_duplicates(),
        forall|g: Grid| #[trigger] solutions(problem@).contains(g) <==> is_completion(problem@, g),
        final(sink).reported() == old(sink).reported() <==> forall|g: Grid| !is_completion(problem@, g),
{
    let blank = SolvingCell::new(None);
    let mut solving_board = Board([[blank; N]; N]);
    let mut i: usize = 0;
    while i < N
        invariant
            i <= N,
            is_puzzle(problem@),
            solving_board.tracks_changes(),
            forall|r: int, q: int|
                0 <= r < i && 0 <= q < 9 ==> #[trigger] solving_board@[r][q] == initial(problem@)[r][q],
        decreases N - i,
    {
        let mut j: usize = 0;
        while j < N
            invariant
                i < N,
                j <= N,
                is_puzzle(problem@),
                solving_board.tracks_changes(),
                forall|r: int, q: int|
                    (0 <= r < i && 0 <= q < 9 || r == i && 0 <= q < j) ==> #[trigger] solving_board@[r][q]
                        == initial(problem@)[r][q],
            decreases N - j,
        {
            proof {
                assert(problem@[i as int][j as int] is Some ==> 0 <= problem@[i as int][j as int]->0 < 9);
            }
            let ghost before = solving_board;
            solving_board.0[i][j] = SolvingCell::new(problem.0[i][j]);
            proof {
                assert forall|r: int, q: int|
                    (0 <= r < i && 0 <= q < 9 || r == i && 0 <= q < j) implies #[trigger] solving_board@[r][q]
                    == before@[r][q] by {}
            }
            j += 1;
        }
        i += 1;
    }
    proof {
        assert(solving_board@ =~~= initial(problem@));
        lemma_solutions(problem@);
    }
    solve(solving_board, sink);
}

} // verus!
