//! Puzzles and solved grids as text: a row of a puzzle is read from the
//! decimal digits of a line, and a grid is written one row per line.

use vstd::prelude::*;
use vstd::string::*;
use crate::board::{Board, N};
use crate::rules::Grid;

verus! {

/// The byte that writes the digit `0`.
pub const ZERO: u8 = 48;

/// The byte that writes the digit `9`.
pub const NINE: u8 = 57;

/// The value of the decimal digit that the byte `b` writes, if it writes one.
pub open spec fn digit_of(b: u8) -> Option<int> {
    if ZERO <= b <= NINE {
        Some(b - ZERO)
    } else {
        None
    }
}

/// The values of the decimal digits in `text`, in order; what else the text
/// holds is passed over.
pub open spec fn digits_in(text: Seq<u8>) -> Seq<int>
    decreases text.len(),
{
    if text.len() == 0 {
        Seq::empty()
    } else {
        match digit_of(text.last()) {
            Some(v) => digits_in(text.drop_last()).push(v),
            None => digits_in(text.drop_last()),
        }
    }
}

/// What a digit of a puzzle's text says of its cell: `0` leaves it blank,
/// and `1` to `9` give the digits `0` to `8`.
pub open spec fn clue_of(v: int) -> Option<int> {
    if v == 0 {
        None
    } else {
        Some(v - 1)
    }
}

/// The row of a puzzle that `text` holds: its first nine digits, if it has
/// as many.
pub open spec fn row_of(text: Seq<u8>) -> Option<Seq<Option<int>>> {
    if digits_in(text).len() >= 9 {
        Some(Seq::new(9, |j: int| clue_of(digits_in(text)[j])))
    } else {
        None
    }
}

/// A row of cells as mathematics.
pub open spec fn row_view(row: [Option<usize>; N]) -> Seq<Option<int>> {
    Seq::new(
        9,
        |j: int|
            match row[j] {
                Some(n) => Some(n as int),
                None => None,
            },
    )
}

/// Reads a row of a puzzle from a line of text, or nothing if the line holds
/// fewer than nine digits.
pub fn parse_row(line: &[u8]) -> (r: Option<[Option<usize>; N]>)
    ensures
        match r {
            Some(row) => row_of(line@) == Some(row_view(row)),
            None => row_of(line@) is None,
        },
        r matches Some(row) ==> forall|j: int| 0 <= j < 9 && (#[trigger] row[j]) is Some ==> row[j]->0 < N,
{
    let mut row: [Option<usize>; N] = [None; N];
    let mut count: usize = 0;
    let mut k: usize = 0;
    while k < line.len()
        invariant
            k <= line.len(),
            count <= k,
            count == digits_in(line@.take(k as int)).len(),
            forall|j: int| 0 <= j < 9 && (#[trigger] row[j]) is Some ==> row[j]->0 < N,
            forall|j: int|
                0 <= j < count && j < 9 ==> #[trigger] row_view(row)[j] == clue_of(
                    digits_in(line@.take(k as int))[j],
                ),
        decreases line.len() - k,
    {
        let b = line[k];
        proof {
            let next = line@.take(k + 1);
            assert(next.drop_last() == line@.take(k as int));
        }
        if ZERO <= b && b <= NINE {
            if count < N {
                let v = (b - ZERO) as usize;
                let ghost before = row;
                row[count] = if v == 0 {
                    None
                } else {
                    Some(v - 1)
                };
                proof {
                    assert forall|j: int| 0 <= j < count + 1 && j < 9 implies #[trigger] row_view(row)[j] == clue_of(
                        digits_in(line@.take(k + 1))[j],
                    ) by {
                        if j < count {
                            assert(row_view(before)[j] == clue_of(digits_in(line@.take(k as int))[j]));
                        }
                    }
                }
            }
            count += 1;
        }
        k += 1;
    }
    proof {
        assert(line@.take(line.len() as int) == line@);
    }
    if count >= N {
        Some(row)
    } else {
        None
    }
}

/// The character that writes the decimal digit `d`.
pub open spec fn digit_char(d: int) -> char {
    if d == 0 {
        '0'
    } else if d == 1 {
        '1'
    } else if d == 2 {
        '2'
    } else if d == 3 {
        '3'
    } else if d == 4 {
        '4'
    } else if d == 5 {
        '5'
    } else if d == 6 {
        '6'
    } else if d == 7 {
        '7'
    } else if d == 8 {
        '8'
    } else {
        '9'
    }
}

/// The number `n` written in decimal.
pub open spec fn decimal(n: nat) -> Seq<char>
    decreases n,
{
    if n < 10 {
        seq![digit_char(n as int)]
    } else {
        decimal(n / 10).push(digit_char((n % 10) as int))
    }
}

/// The first `k` cells of `row`, each written as the number one greater, with
/// a space between one and the next.
pub open spec fn cells_text(row: Seq<int>, k: int) -> Seq<char>
    decreases k,
{
    if k <= 0 {
        Seq::empty()
    } else if k == 1 {
        decimal((row[0] + 1) as nat)
    } else {
        cells_text(row, k - 1) + seq![' '] + decimal((row[k - 1] + 1) as nat)
    }
}

/// The first `k` rows of `g`, each on a line of its own.
pub open spec fn rows_text(g: Grid, k: int) -> Seq<char>
    decreases k,
{
    if k <= 0 {
        Seq::empty()
    } else {
        rows_text(g, k - 1) + cells_text(g[k - 1], 9) + seq!['\n']
    }
}

/// The grid `g` as text: nine lines of nine numbers from 1 to 9.
pub open spec fn grid_text(g: Grid) -> Seq<char> {
    rows_text(g, 9)
}

/// The decimal digit `d` as text.
fn digit_str(d: usize) -> (s: &'static str)
    requires
        d < 10,
    ensures
        s@ == seq![digit_char(d as int)],
{
    proof {
        reveal_strlit("0");
        reveal_strlit("1");
        reveal_strlit("2");
        reveal_strlit("3");
        reveal_strlit("4");
        reveal_strlit("5");
        reveal_strlit("6");
        reveal_strlit("7");
        reveal_strlit("8");
        reveal_strlit("9");
    }
    let s = match d {
        0 => "0",
        1 => "1",
        2 => "2",
        3 => "3",
        4 => "4",
        5 => "5",
        6 => "6",
        7 => "7",
        8 => "8",
        _ => "9",
    };
    s
}

/// Writes `n` in decimal at the end of `text`.
fn push_decimal(text: &mut String, n: usize)
    ensures
        final(text)@ == old(text)@ + decimal(n as nat),
    decreases n,
{
    if n >= 10 {
        push_decimal(text, n / 10);
    }
    text.append(digit_str(n % 10));
}

impl Board<usize> {
    /// The grid as text, one row per line, each cell written as the number
    /// one greater than what it holds, with a space between cells.
    pub fn render(&self) -> (text: String)
        requires
            forall|i: int, j: int| 0 <= i < 9 && 0 <= j < 9 ==> #[trigger] self.0[i][j] < usize::MAX,
        ensures
            text@ == grid_text(self@),
    {
        let mut text = String::new();
        let mut i: usize = 0;
        while i < N
            invariant
                i <= N,
                forall|i: int, j: int| 0 <= i < 9 && 0 <= j < 9 ==> #[trigger] self.0[i][j] < usize::MAX,
                text@ == rows_text(self@, i as int),
            decreases N - i,
        {
            let ghost start = text@;
            let mut j: usize = 0;
            while j < N
                invariant
                    i < N,
                    j <= N,
                    forall|i: int, j: int| 0 <= i < 9 && 0 <= j < 9 ==> #[trigger] self.0[i][j] < usize::MAX,
                    text@ == start + cells_text(self@[i as int], j as int),
                decreases N - j,
            {
                if j > 0 {
                    text.append(" ");
                }
                push_decimal(&mut text, self.0[i][j] + 1);
                proof {
                    reveal_strlit(" ");
                }
                j += 1;
            }
            proof {
                reveal_strlit("\n");
            }
            text.append("\n");
            i += 1;
        }
        text
    }
}

} // verus!
