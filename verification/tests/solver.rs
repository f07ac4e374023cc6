use sudoku_solver::board::{Board, N};
use std::cell::RefCell;

use sudoku_solver::solver::{for_each_solution, Callback, SolutionSink};

fn puzzle(rows: [&str; 9]) -> Board<Option<usize>> {
    let mut board = Board([[None; N]; N]);
    for (i, row) in rows.iter().enumerate() {
        let cells: Vec<char> = row.chars().collect();
        assert_eq!(cells.len(), 9);
        for (j, c) in cells.iter().enumerate() {
            board.0[i][j] = match c.to_digit(10) {
                Some(0) | None => None,
                Some(n) => Some(n as usize - 1),
            };
        }
    }
    board
}

fn grid(rows: [&str; 9]) -> Board<usize> {
    let mut board = Board([[0usize; N]; N]);
    for (i, row) in rows.iter().enumerate() {
        let cells: Vec<char> = row.chars().collect();
        assert_eq!(cells.len(), 9);
        for (j, c) in cells.iter().enumerate() {
            board.0[i][j] = c.to_digit(10).unwrap() as usize - 1;
        }
    }
    board
}

fn solve(problem: &Board<Option<usize>>) -> Vec<Board<usize>> {
    let mut found = Vec::new();
    for_each_solution(problem, &mut found);
    found
}

fn holds_each_digit_once(cells: &[usize]) -> bool {
    let mut seen = [false; N];
    for &d in cells {
        if d >= N || seen[d] {
            return false;
        }
        seen[d] = true;
    }
    cells.len() == N
}

fn is_solved(g: &Board<usize>) -> bool {
    for k in 0..N {
        let row: Vec<usize> = (0..N).map(|j| g.0[k][j]).collect();
        let col: Vec<usize> = (0..N).map(|i| g.0[i][k]).collect();
        let block: Vec<usize> = (0..N).map(|n| g.0[k / 3 * 3 + n / 3][k % 3 * 3 + n % 3]).collect();
        if !holds_each_digit_once(&row) || !holds_each_digit_once(&col) || !holds_each_digit_once(&block) {
            return false;
        }
    }
    true
}

fn keeps_clues(problem: &Board<Option<usize>>, g: &Board<usize>) -> bool {
    (0..N).all(|i| (0..N).all(|j| problem.0[i][j].map_or(true, |n| g.0[i][j] == n)))
}

const SOLVED: [&str; 9] = [
    "534678912",
    "672195348",
    "198342567",
    "859761423",
    "426853791",
    "713924856",
    "961537284",
    "287419635",
    "345286179",
];

const CLASSIC: [&str; 9] = [
    "53..7....",
    "6..195...",
    ".98....6.",
    "8...6...3",
    "4..8.3..1",
    "7...2...6",
    ".6....28.",
    "...419..5",
    "....8..79",
];

#[test]
fn one_blank_cell_is_filled_in() {
    let mut problem = puzzle(SOLVED);
    problem.0[4][4] = None;
    let found = solve(&problem);
    assert_eq!(found.len(), 1);
    assert_eq!(found[0], grid(SOLVED));
    for i in 0..N {
        for j in 0..N {
            if (i, j) != (4, 4) {
                assert_eq!(Some(found[0].0[i][j]), problem.0[i][j]);
            }
        }
    }
    assert_eq!(found[0].0[4][4], 4);
}

#[test]
fn one_blank_cell_per_unit_is_filled_in() {
    let mut problem = puzzle(SOLVED);
    for k in 0..N {
        problem.0[k][(k % 3) * 3 + k / 3] = None;
    }
    let found = solve(&problem);
    assert_eq!(found, vec![grid(SOLVED)]);
}

#[test]
fn full_grid_is_its_own_solution() {
    let found = solve(&puzzle(SOLVED));
    assert_eq!(found, vec![grid(SOLVED)]);
}

#[test]
fn classic_puzzle_has_one_solution() {
    let found = solve(&puzzle(CLASSIC));
    assert_eq!(found, vec![grid(SOLVED)]);
}

#[test]
fn repeated_clue_in_a_row_has_no_solution() {
    let mut problem = Board([[None; N]; N]);
    problem.0[2][1] = Some(6);
    problem.0[2][7] = Some(6);
    assert_eq!(solve(&problem), vec![]);
}

#[test]
fn repeated_clue_in_a_column_or_block_has_no_solution() {
    let mut problem = Board([[None; N]; N]);
    problem.0[0][5] = Some(0);
    problem.0[8][5] = Some(0);
    assert_eq!(solve(&problem), vec![]);
    let mut problem = Board([[None; N]; N]);
    problem.0[3][3] = Some(8);
    problem.0[5][4] = Some(8);
    assert_eq!(solve(&problem), vec![]);
}

#[test]
fn wrong_clue_in_a_full_grid_has_no_solution() {
    let mut problem = puzzle(SOLVED);
    problem.0[0][0] = Some(0);
    assert_eq!(solve(&problem), vec![]);
}

#[test]
fn cell_without_a_digit_left_has_no_solution() {
    // The last cell of the first row sees 1 to 8 in its row and 9 in its column.
    let problem = puzzle([
        "12345678.",
        ".........",
        ".........",
        ".........",
        "........9",
        ".........",
        ".........",
        ".........",
        ".........",
    ]);
    assert_eq!(solve(&problem), vec![]);
}

#[test]
fn too_few_clues_give_every_solution() {
    let mut rows = CLASSIC;
    rows[8] = ".........";
    let problem = puzzle(rows);
    let found = solve(&problem);
    assert_eq!(
        found,
        vec![
            grid([
                "534678192",
                "672195348",
                "198342567",
                "859761423",
                "426853971",
                "713924856",
                "961537284",
                "287419635",
                "345286719",
            ]),
            grid(SOLVED),
        ]
    );
}

#[test]
fn every_reported_grid_is_a_distinct_completion() {
    let mut rows = CLASSIC;
    rows[0] = ".........";
    rows[8] = ".........";
    let problem = puzzle(rows);
    let found = solve(&problem);
    assert_eq!(found.len(), 16);
    for (k, g) in found.iter().enumerate() {
        assert!(is_solved(g));
        assert!(keeps_clues(&problem, g));
        assert!(found[..k].iter().all(|earlier| earlier != g));
    }
    assert!(found.contains(&grid(SOLVED)));
}

#[test]
fn search_is_repeatable() {
    let mut rows = CLASSIC;
    rows[0] = ".........";
    rows[8] = ".........";
    let problem = puzzle(rows);
    let first = solve(&problem);
    let second = solve(&problem);
    assert_eq!(first.len(), 16);
    assert_eq!(first, second);
    assert_eq!(
        first[0],
        grid([
            "371648952",
            "642195378",
            "598372164",
            "819764523",
            "426853791",
            "735921846",
            "164537289",
            "287419635",
            "953286417",
        ])
    );
}

#[test]
fn solutions_follow_what_was_reported_before() {
    let mut found = vec![grid(SOLVED)];
    let mut problem = puzzle(SOLVED);
    problem.0[0][0] = None;
    problem.0[8][8] = None;
    for_each_solution(&problem, &mut found);
    assert_eq!(found, vec![grid(SOLVED), grid(SOLVED)]);
    for_each_solution(&Board([[Some(0); N]; N]), &mut found);
    assert_eq!(found.len(), 2);
}

#[test]
fn hard_puzzle_needs_search() {
    let problem = puzzle([
        "8........",
        "..36.....",
        ".7..9.2..",
        ".5...7...",
        "....457..",
        "...1...3.",
        "..1....68",
        "..85...1.",
        ".9....4..",
    ]);
    let found = solve(&problem);
    assert_eq!(
        found,
        vec![grid([
            "812753649",
            "943682175",
            "675491283",
            "154237896",
            "369845721",
            "287169534",
            "521974368",
            "438526917",
            "796318452",
        ])]
    );
}

#[test]
fn callback_is_called_once_for_each_solution() {
    let mut rows = CLASSIC;
    rows[8] = ".........";
    let problem = puzzle(rows);
    let seen = RefCell::new(Vec::new());
    let mut sink = Callback::new(|solution| seen.borrow_mut().push(solution));
    for_each_solution(&problem, &mut sink);
    assert_eq!(seen.into_inner(), solve(&problem));
}

#[test]
fn callback_is_not_called_without_a_solution() {
    let mut problem = Board([[None; N]; N]);
    problem.0[4][0] = Some(3);
    problem.0[4][8] = Some(3);
    let calls = RefCell::new(0usize);
    let mut sink = Callback::new(|_| *calls.borrow_mut() += 1);
    for_each_solution(&problem, &mut sink);
    assert_eq!(calls.into_inner(), 0);
}

#[test]
fn callback_hands_each_grid_to_its_function() {
    let seen = RefCell::new(Vec::new());
    let mut sink = Callback::new(|solution: Board<usize>| seen.borrow_mut().push(solution));
    assert!(seen.borrow().is_empty());
    sink.report(grid(SOLVED));
    assert_eq!(*seen.borrow(), vec![grid(SOLVED)]);
    sink.report(grid(SOLVED));
    assert_eq!(seen.into_inner(), vec![grid(SOLVED), grid(SOLVED)]);
}
