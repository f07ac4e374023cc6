//! Grids and the cells of a grid that is being solved.

use vstd::prelude::*;
use crate::candidates::{admits, all_single, grid_of, lemma_within_trans, well_formed, within, Candidates};
use crate::rules::{block_cells, col_cells, digits, in_grid, lemma_digits, row_cells, Clues, Grid};

verus! {

/// The length of an edge of a block.
pub const N_BLOCK: usize = 3;

/// The length of an edge of the grid.
pub const N: usize = 9;

/// A cell of a grid that is being solved: the digits that it may still hold,
/// and whether a digit was struck from it that its neighbours have not yet
/// been told about.
#[derive(Clone, Copy, Debug, PartialEq, Eq)]
pub struct SolvingCell {
    values: [bool; N],
    update: bool,
}

impl View for SolvingCell {
    type V = Set<int>;

    /// The digits that the cell may still hold.
    closed spec fn view(&self) -> Set<int> {
        Set::new(|n: int| 0 <= n < 9 && self.values[n])
    }
}

impl SolvingCell {
    /// Whether a change to this cell is waiting to be passed on.
    pub closed spec fn pending(&self) -> bool {
        self.update
    }

    /// A cell holds digits only, so at most nine of them.
    pub proof fn lemma_in_domain(&self)
        ensures
            self@.subset_of(digits()),
            self@.finite(),
            self@.len() <= 9,
    {
        lemma_digits(self@);
    }

    /// An unconstrained cell for `None`, a cell pinned to `n` for `Some(n)`.
    ///
    /// A pinned cell is news to its neighbours; an unconstrained one is not.
    pub fn new(v: Option<usize>) -> (cell: SolvingCell)
        requires
            v matches Some(n) ==> n < N,
        ensures
            match v {
                None => cell@ == digits() && cell@.len() == 9 && !cell.pending(),
                Some(n) => cell@ == set![n as int] && cell@.len() == 1 && cell.pending(),
            },
    {
        proof {
            lemma_digits(digits());
        }
        match v {
            None => SolvingCell { values: [true; N], update: false },
            Some(n) => {
                let mut values = [false; N];
                values[n] = true;
                SolvingCell { values, update: true }
            },
        }
    }

    /// Whether a change to this cell is waiting to be passed on.
    pub fn has_update(&self) -> (r: bool)
        ensures
            r == self.pending(),
    {
        self.update
    }

    /// Marks the cell's changes as passed on.
    pub fn acknowledge(&mut self)
        ensures
            final(self)@ == old(self)@,
            !final(self).pending(),
    {
        self.update = false;
    }

    /// Whether the cell may still hold `n`.
    pub fn can_be(&self, n: usize) -> (r: bool)
        requires
            n < N,
        ensures
            r == self@.contains(n as int),
    {
        self.values[n]
    }

    /// The digit of a cell that has exactly one left.
    pub fn get_unique(&self) -> (r: Option<usize>)
        ensures
            r is Some <==> self@.len() == 1,
            r matches Some(n) ==> n < N && self@ == set![n as int] && self@.contains(n as int),
    {
        let mut found: Option<usize> = None;
        proof {
            self.lemma_in_domain();
            lemma_below_step(self@, 0);
        }
        for n in 0..N
            invariant
                match found {
                    None => below(self@, n as int) == Set::<int>::empty(),
                    Some(m) => m < n && below(self@, n as int) == set![m as int],
                },
        {
            proof {
                self.lemma_in_domain();
                lemma_below_step(self@, n as int);
            }
            if self.values[n] {
                if let Some(m) = found {
                    proof {
                        assert(below(self@, n as int).contains(m as int));
                        lemma_two_members(self@, m as int, n as int);
                    }
                    return None;
                }
                found = Some(n);
            }
        }
        proof {
            self.lemma_in_domain();
            lemma_below_step(self@, 9);
        }
        found
    }

    /// Whether the cell has exactly one digit left.
    pub fn is_unique(&self) -> (r: bool)
        ensures
            r == (self@.len() == 1),
    {
        let found = self.get_unique();
        found.is_some()
    }

    /// Whether the cell has no digit left.
    pub fn is_empty(&self) -> (r: bool)
        ensures
            r == (self@.len() == 0),
    {
        proof {
            self.lemma_in_domain();
            lemma_below_step(self@, 0);
        }
        for n in 0..N
            invariant
                below(self@, n as int) == Set::<int>::empty(),
        {
            proof {
                self.lemma_in_domain();
                lemma_below_step(self@, n as int);
            }
            if self.values[n] {
                return false;
            }
        }
        proof {
            self.lemma_in_domain();
            lemma_below_step(self@, 9);
        }
        true
    }

    /// How many digits the cell may still hold.
    pub fn count(&self) -> (k: usize)
        ensures
            k == self@.len(),
    {
        let mut k: usize = 0;
        proof {
            self.lemma_in_domain();
            lemma_below_step(self@, 0);
        }
        for n in 0..N
            invariant
                k <= n,
                k == below(self@, n as int).len(),
        {
            proof {
                self.lemma_in_domain();
                lemma_below_step(self@, n as int);
            }
            if self.values[n] {
                k += 1;
            }
        }
        proof {
            self.lemma_in_domain();
            lemma_below_step(self@, 9);
        }
        k
    }

    /// The digits that the cell may still hold, in ascending order.
    pub fn iter(&self) -> (list: Vec<usize>)
        ensures
            lists(list@, self@),
            list@.len() == self@.len(),
    {
        let mut list: Vec<usize> = Vec::new();
        let mut n: usize = 0;
        proof {
            self.lemma_in_domain();
            lemma_below_step(self@, 0);
        }
        while n < N
            invariant
                n <= N,
                lists(list@, below(self@, n as int)),
                forall|k: int| 0 <= k < list@.len() ==> #[trigger] list@[k] < n,
            decreases N - n,
        {
            proof {
                self.lemma_in_domain();
                lemma_below_step(self@, n as int);
            }
            if self.values[n] {
                let ghost before = list@;
                list.push(n);
                proof {
                    let next = below(self@, n + 1);
                    assert forall|m: int|
                        #![trigger next.contains(m)]
                        next.contains(m) implies exists|k: int|
                        #![trigger list@[k]]
                        0 <= k < list@.len() && list@[k] == m by {
                        if m == n {
                            assert(list@[before.len() as int] == m);
                        } else {
                            let k = choose|k: int|
                                #![trigger before[k]]
                                0 <= k < before.len() && before[k] == m;
                            assert(list@[k] == m);
                        }
                    }
                    assert forall|k: int| 0 <= k < list@.len() implies next.contains(#[trigger] list@[k] as int)
                        by {}
                }
            }
            n += 1;
        }
        proof {
            self.lemma_in_domain();
            lemma_below_step(self@, 9);
            lemma_list_counts(list@, self@);
        }
        list
    }

    /// Strikes `n` from the cell, and says whether the cell held it.
    ///
    /// A cell that loses a digit has news for its neighbours.
    pub fn remove(&mut self, n: usize) -> (changed: bool)
        requires
            n < N,
        ensures
            changed == old(self)@.contains(n as int),
            final(self)@ == old(self)@.remove(n as int),
            final(self).pending() == (old(self).pending() || changed),
    {
        if self.values[n] {
            self.values[n] = false;
            self.update = true;
            true
        } else {
            false
        }
    }
}

/// `list` holds the members of `s`, each of them once, in ascending order.
pub open spec fn lists(list: Seq<usize>, s: Set<int>) -> bool {
    &&& forall|k: int| 0 <= k < list.len() ==> s.contains(#[trigger] list[k] as int)
    &&& forall|n: int|
        #![trigger s.contains(n)]
        s.contains(n) ==> exists|k: int|
            #![trigger list[k]]
            0 <= k < list.len() && list[k] == n
    &&& forall|a: int, b: int| 0 <= a < b < list.len() ==> list[a] < list[b]
}

/// A list of the members of a set is as long as the set is large.
pub proof fn lemma_list_counts(list: Seq<usize>, s: Set<int>)
    requires
        lists(list, s),
    ensures
        s.finite(),
        list.len() == s.len(),
{
    let values = Seq::new(list.len(), |k: int| list[k] as int);
    assert(values.no_duplicates()) by {
        assert forall|a: int, b: int| 0 <= a < values.len() && 0 <= b < values.len() && a != b implies values[a]
            != values[b] by {}
    }
    values.unique_seq_to_set();
    assert(values.to_set() =~= s) by {
        assert forall|n: int| values.to_set().contains(n) implies s.contains(n) by {
            let k = choose|k: int| 0 <= k < values.len() && values[k] == n;
            assert(s.contains(list[k] as int));
        }
        assert forall|n: int| s.contains(n) implies values.to_set().contains(n) by {
            let k = choose|k: int| #![trigger list[k]] 0 <= k < list.len() && list[k] == n;
            assert(values[k] == n);
        }
    }
    vstd::seq_lib::seq_to_set_is_finite(values);
}

/// To strike a digit a second time changes nothing: the cell stays as the
/// first strike left it, and no change is reported.
pub proof fn lemma_remove_twice(
    start: SolvingCell,
    once: SolvingCell,
    twice: SolvingCell,
    n: int,
    first: bool,
    second: bool,
)
    requires
        first == start@.contains(n),
        once@ == start@.remove(n),
        once.pending() == (start.pending() || first),
        second == once@.contains(n),
        twice@ == once@.remove(n),
        twice.pending() == (once.pending() || second),
    ensures
        !second,
        twice@ == once@,
        twice.pending() == once.pending(),
{
}

/// A 9×9 grid of cells.
#[derive(Clone, Copy, Debug, PartialEq, Eq)]
pub struct Board<T>(pub [[T; N]; N]);

impl View for Board<usize> {
    type V = Grid;

    /// The digit in each cell.
    open spec fn view(&self) -> Grid {
        Seq::new(9, |i: int| Seq::new(9, |j: int| self.0[i][j] as int))
    }
}

impl View for Board<Option<usize>> {
    type V = Clues;

    /// The given digit of each cell, if it has one.
    open spec fn view(&self) -> Clues {
        Seq::new(
            9,
            |i: int|
                Seq::new(
                    9,
                    |j: int|
                        match self.0[i][j] {
                            Some(n) => Some(n as int),
                            None => None,
                        },
                ),
        )
    }
}

impl View for Board<SolvingCell> {
    type V = Candidates;

    /// The digits that each cell may still hold.
    open spec fn view(&self) -> Candidates {
        Seq::new(9, |i: int| Seq::new(9, |j: int| self.0[i][j]@))
    }
}

impl Board<SolvingCell> {
    /// Every cell that has lost a digit has news for its neighbours.
    pub open spec fn tracks_changes(&self) -> bool {
        forall|i: int, j: int| in_grid(i, j) && !(#[trigger] self.0[i][j]).pending() ==> self.0[i][j]@ == digits()
    }

    /// Since the board was as `before`, each cell that has lost a digit, and
    /// no other, has got news for its neighbours.
    pub open spec fn flagged_since(&self, before: Board<SolvingCell>) -> bool {
        forall|i: int, j: int|
            in_grid(i, j) ==> (#[trigger] self.0[i][j]).pending() == (
                before.0[i][j].pending() || self.0[i][j]@ != before.0[i][j]@
            )
    }

    /// A board that tracked its changes still does after further ones.
    pub proof fn lemma_flagged_tracks(&self, before: Board<SolvingCell>)
        requires
            before.tracks_changes(),
            self.flagged_since(before),
        ensures
            self.tracks_changes(),
    {
        assert forall|i: int, j: int| in_grid(i, j) && !(#[trigger] self.0[i][j]).pending() implies self.0[i][j]@
            == digits() by {}
    }

    /// Changes that follow one another add up, as long as cells only lose
    /// digits.
    pub proof fn lemma_flagged_trans(&self, between: Board<SolvingCell>, before: Board<SolvingCell>)
        requires
            between.flagged_since(before),
            self.flagged_since(between),
            within(between@, before@),
            within(self@, between@),
        ensures
            self.flagged_since(before),
            within(self@, before@),
    {
        assert forall|i: int, j: int| in_grid(i, j) implies (#[trigger] self.0[i][j]).pending() == (
            before.0[i][j].pending() || self.0[i][j]@ != before.0[i][j]@
        ) by {
            let a = before.0[i][j]@;
            let b = between.0[i][j]@;
            let c = self.0[i][j]@;
            assert(a == before@[i][j] && b == between@[i][j] && c == self@[i][j]);
            assert(b.subset_of(a) && c.subset_of(b));
            if c == a {
                assert(b =~= a);
            }
        }
        lemma_within_trans(self@, between@, before@);
    }

    /// The candidates of a board are a 9×9 grid of sets of digits.
    pub proof fn lemma_well_formed(&self)
        ensures
            well_formed(self@),
    {
        assert forall|i: int, j: int| in_grid(i, j) implies (#[trigger] self@[i][j]).subset_of(digits()) by {
            self.0[i][j].lemma_in_domain();
        }
    }

    /// The finished grid, if every cell has exactly one digit left.
    pub fn to_solution(&self) -> (r: Option<Board<usize>>)
        ensures
            match r {
                Some(solution) => all_single(self@) && admits(self@, solution@) && solution@ == grid_of(self@),
                None => !all_single(self@),
            },
    {
        let mut solution = Board([[0usize; N]; N]);
        let mut i: usize = 0;
        while i < N
            invariant
                i <= N,
                forall|r: int, q: int|
                    0 <= r < i && 0 <= q < 9 ==> self@[r][q] == set![#[trigger] solution.0[r][q] as int],
            decreases N - i,
        {
            let mut j: usize = 0;
            while j < N
                invariant
                    i < N,
                    j <= N,
                    forall|r: int, q: int|
                        0 <= r < i && 0 <= q < 9 ==> self@[r][q] == set![#[trigger] solution.0[r][q] as int],
                    forall|q: int|
                        0 <= q < j ==> self@[i as int][q] == set![#[trigger] solution.0[i as int][q] as int],
                decreases N - j,
            {
                match self.0[i][j].get_unique() {
                    Some(n) => {
                        solution.0[i][j] = n;
                    },
                    None => {
                        assert(self@[i as int][j as int].len() != 1);
                        return None;
                    },
                }
                j += 1;
            }
            i += 1;
        }
        proof {
            assert forall|r: int, q: int| in_grid(r, q) implies (#[trigger] self@[r][q]).len() == 1
                && self@[r][q].contains(solution@[r][q]) && solution@[r][q] == grid_of(self@)[r][q] by {
                assert(self@[r][q].contains(solution.0[r][q] as int));
            }
            assert(solution@ =~~= grid_of(self@));
        }
        Some(solution)
    }
}

/// The rows and columns of a list of cells.
pub open spec fn positions(cells: Seq<(usize, usize)>) -> Seq<(int, int)> {
    Seq::new(cells.len(), |k: int| (cells[k].0 as int, cells[k].1 as int))
}

/// The cells of row `i`, left to right.
pub fn row_iter(i: usize) -> (cells: Vec<(usize, usize)>)
    ensures
        cells@.len() == 9,
        forall|k: int| 0 <= k < 9 ==> #[trigger] cells@[k] == (i, k as usize),
        positions(cells@) == row_cells(i as int),
{
    let mut cells: Vec<(usize, usize)> = Vec::new();
    let mut j: usize = 0;
    while j < N
        invariant
            j <= N,
            cells@.len() == j,
            forall|k: int| 0 <= k < j ==> #[trigger] cells@[k] == (i, k as usize),
        decreases N - j,
    {
        cells.push((i, j));
        j += 1;
    }
    cells
}

/// The cells of column `j`, top to bottom.
pub fn col_iter(j: usize) -> (cells: Vec<(usize, usize)>)
    ensures
        cells@.len() == 9,
        forall|k: int| 0 <= k < 9 ==> #[trigger] cells@[k] == (k as usize, j),
        positions(cells@) == col_cells(j as int),
{
    let mut cells: Vec<(usize, usize)> = Vec::new();
    let mut i: usize = 0;
    while i < N
        invariant
            i <= N,
            cells@.len() == i,
            forall|k: int| 0 <= k < i ==> #[trigger] cells@[k] == (k as usize, j),
        decreases N - i,
    {
        cells.push((i, j));
        i += 1;
    }
    cells
}

/// The cells of the block whose top left cell is `(i, j)`, row by row.
pub fn block_iter(i: usize, j: usize) -> (cells: Vec<(usize, usize)>)
    requires
        i % N_BLOCK == 0,
        j % N_BLOCK == 0,
        i / N_BLOCK < N_BLOCK,
        j / N_BLOCK < N_BLOCK,
    ensures
        cells@.len() == 9,
        forall|k: int| 0 <= k < 9 ==> #[trigger] cells@[k] == ((i + k / 3) as usize, (j + k % 3) as usize),
        positions(cells@) == block_cells(i as int, j as int),
{
    let mut cells: Vec<(usize, usize)> = Vec::new();
    let mut n: usize = 0;
    while n < N
        invariant
            n <= N,
            i <= 6,
            j <= 6,
            cells@.len() == n,
            forall|k: int| 0 <= k < n ==> #[trigger] cells@[k] == ((i + k / 3) as usize, (j + k % 3) as usize),
        decreases N - n,
    {
        cells.push((i + n / N_BLOCK, j + n % N_BLOCK));
        n += 1;
    }
    cells
}

/// The members of `s` that are less than `m`.
spec fn below(s: Set<int>, m: int) -> Set<int> {
    Set::new(|n: int| n < m && s.contains(n))
}

/// How the members below `m` grow with `m`.
proof fn lemma_below_step(s: Set<int>, m: int)
    requires
        s.subset_of(digits()),
        0 <= m,
    ensures
        below(s, 0) == Set::<int>::empty(),
        below(s, m).finite(),
        !below(s, m).contains(m),
        s.contains(m) ==> below(s, m + 1) == below(s, m).insert(m),
        !s.contains(m) ==> below(s, m + 1) == below(s, m),
        m >= 9 ==> below(s, m) == s,
    decreases m,
{
    if m > 0 {
        lemma_below_step(s, m - 1);
    }
}

/// A finite set with two different members has at least two members.
proof fn lemma_two_members(s: Set<int>, a: int, b: int)
    requires
        s.finite(),
        s.contains(a),
        s.contains(b),
        a != b,
    ensures
        s.len() >= 2,
{
    assert(s.remove(a).contains(b));
}

} // verus!
