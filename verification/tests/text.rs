use sudoku_solver::board::{Board, N};
use sudoku_solver::text::parse_row;

#[test]
fn row_of_nine_digits() {
    assert_eq!(
        parse_row(b"530070000"),
        Some([Some(4), Some(2), None, None, Some(6), None, None, None, None])
    );
    assert_eq!(
        parse_row(b"123456789"),
        Some([Some(0), Some(1), Some(2), Some(3), Some(4), Some(5), Some(6), Some(7), Some(8)])
    );
}

#[test]
fn row_passes_over_what_is_no_digit() {
    assert_eq!(
        parse_row(b" 5 3 0 | 0 7 0 | 0 0 9 \r"),
        Some([Some(4), Some(2), None, None, Some(6), None, None, None, Some(8)])
    );
    assert_eq!(
        parse_row("5\u{e9}3\u{ff11}00\u{2460}7000x0".as_bytes()),
        Some([Some(4), Some(2), None, None, Some(6), None, None, None, None])
    );
    assert_eq!(parse_row(b"/:/:000000000"), Some([None; N]));
}

#[test]
fn row_takes_the_first_nine_digits() {
    assert_eq!(
        parse_row(b"1234567891111"),
        Some([Some(0), Some(1), Some(2), Some(3), Some(4), Some(5), Some(6), Some(7), Some(8)])
    );
}

#[test]
fn row_with_too_few_digits_is_refused() {
    assert_eq!(parse_row(b""), None);
    assert_eq!(parse_row(b"12345678"), None);
    assert_eq!(parse_row(b"1.2.3.4.5.6.7.8."), None);
    assert_eq!(parse_row(b"no digits here"), None);
}

#[test]
fn grid_is_written_row_by_row() {
    let mut board = Board([[0usize; N]; N]);
    for i in 0..N {
        for j in 0..N {
            board.0[i][j] = (3 * (i % 3) + i / 3 + j) % N;
        }
    }
    assert_eq!(
        board.render(),
        "1 2 3 4 5 6 7 8 9\n\
         4 5 6 7 8 9 1 2 3\n\
         7 8 9 1 2 3 4 5 6\n\
         2 3 4 5 6 7 8 9 1\n\
         5 6 7 8 9 1 2 3 4\n\
         8 9 1 2 3 4 5 6 7\n\
         3 4 5 6 7 8 9 1 2\n\
         6 7 8 9 1 2 3 4 5\n\
         9 1 2 3 4 5 6 7 8\n"
    );
}

#[test]
fn numbers_of_several_digits_are_written_in_full() {
    let mut board = Board([[0usize; N]; N]);
    board.0[0][0] = 8;
    board.0[0][1] = 9;
    board.0[0][8] = 1233;
    board.0[8][8] = 99;
    let text = board.render();
    let lines: Vec<&str> = text.lines().collect();
    assert_eq!(lines.len(), 9);
    assert_eq!(lines[0], "9 10 1 1 1 1 1 1 1234");
    assert_eq!(lines[1], "1 1 1 1 1 1 1 1 1");
    assert_eq!(lines[8], "1 1 1 1 1 1 1 1 100");
    assert!(text.ends_with("100\n"));
}
