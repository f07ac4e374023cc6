use sudoku_solver::board::{block_iter, col_iter, row_iter, Board, SolvingCell, N};

#[test]
fn solving_cell_new_none() {
    let none = SolvingCell::new(None);
    assert_eq!(none.count(), 9);
    assert!(!none.has_update());
    assert!(none.can_be(0));
    assert!(none.can_be(1));
    assert!(none.can_be(4));
    assert!(none.can_be(N - 2));
    assert!(none.can_be(N - 1));
}

#[test]
fn solving_cell_new_some() {
    let some = SolvingCell::new(Some(4));
    assert_eq!(some.iter().into_iter().collect::<Vec<usize>>(), vec![4]);
    assert!(some.has_update());
    assert!(!some.can_be(0));
    assert!(!some.can_be(1));
    assert!(some.can_be(4));
    assert!(!some.can_be(N - 2));
    assert!(!some.can_be(N - 1));
}

#[test]
fn solving_cell_acknowledge() {
    let mut cell = SolvingCell::new(Some(6));
    cell.acknowledge();
    assert!(!cell.has_update());
    cell.acknowledge();
    assert!(!cell.has_update());
}

#[test]
fn solving_cell_get_unique() {
    assert_eq!(SolvingCell::new(None).get_unique(), None);
    assert_eq!(SolvingCell::new(Some(1)).get_unique(), Some(1));
    assert_eq!(SolvingCell::new(Some(8)).get_unique(), Some(8));
}

#[test]
fn solving_cell_iter() {
    let mut cell = SolvingCell::new(None);
    assert!(cell.iter().into_iter().eq(0..N));
    cell.remove(2);
    cell.remove(5);
    cell.remove(7);
    assert_eq!(cell.iter().into_iter().collect::<Vec<_>>(), vec![0, 1, 3, 4, 6, 8]);
    cell.remove(1);
    cell.remove(2);
    cell.remove(8);
    assert_eq!(cell.iter().into_iter().collect::<Vec<_>>(), vec![0, 3, 4, 6]);
    cell.remove(0);
    cell.remove(4);
    cell.remove(6);
    assert_eq!(cell.iter().into_iter().collect::<Vec<_>>(), vec![3]);
    cell.remove(3);
    assert_eq!(cell.iter().into_iter().next(), None);
}

#[test]
fn row_iter_values() {
    assert_eq!(
        row_iter(3).into_iter().collect::<Vec<_>>(),
        vec![
            (3, 0),
            (3, 1),
            (3, 2),
            (3, 3),
            (3, 4),
            (3, 5),
            (3, 6),
            (3, 7),
            (3, 8)
        ]
    );
}

#[test]
fn col_iter_values() {
    assert_eq!(
        col_iter(7).into_iter().collect::<Vec<_>>(),
        vec![
            (0, 7),
            (1, 7),
            (2, 7),
            (3, 7),
            (4, 7),
            (5, 7),
            (6, 7),
            (7, 7),
            (8, 7)
        ]
    );
}

#[test]
fn block_iter_values() {
    assert_eq!(
        block_iter(0, 6).into_iter().collect::<Vec<_>>(),
        vec![
            (0, 6),
            (0, 7),
            (0, 8),
            (1, 6),
            (1, 7),
            (1, 8),
            (2, 6),
            (2, 7),
            (2, 8)
        ]
    );
    assert_eq!(
        block_iter(6, 3).into_iter().collect::<Vec<_>>(),
        vec![
            (6, 3),
            (6, 4),
            (6, 5),
            (7, 3),
            (7, 4),
            (7, 5),
            (8, 3),
            (8, 4),
            (8, 5)
        ]
    );
}

#[test]
fn singleton_holds_its_digit_only() {
    for n in 0..N {
        let cell = SolvingCell::new(Some(n));
        assert_eq!(cell.count(), 1);
        assert_eq!(cell.get_unique(), Some(n));
        for m in 0..N {
            assert_eq!(cell.can_be(m), m == n);
        }
    }
}

#[test]
fn remove_reports_a_change_once() {
    let mut cell = SolvingCell::new(None);
    assert!(cell.remove(5));
    let once = cell;
    assert!(cell.has_update());
    assert!(!cell.remove(5));
    assert_eq!(cell, once);
    assert_eq!(cell.iter(), vec![0, 1, 2, 3, 4, 6, 7, 8]);
}

#[test]
fn remove_of_an_absent_digit_leaves_the_flag() {
    let mut cell = SolvingCell::new(Some(2));
    cell.acknowledge();
    assert!(!cell.remove(7));
    assert!(!cell.has_update());
    assert!(cell.remove(2));
    assert!(cell.has_update());
    assert_eq!(cell.count(), 0);
    assert_eq!(cell.get_unique(), None);
}

#[test]
fn acknowledge_keeps_the_digits() {
    let mut cell = SolvingCell::new(None);
    cell.remove(0);
    cell.remove(8);
    cell.acknowledge();
    assert!(!cell.has_update());
    assert_eq!(cell.iter(), vec![1, 2, 3, 4, 5, 6, 7]);
}

#[test]
fn count_is_the_length_of_iter() {
    let mut cell = SolvingCell::new(None);
    for n in [4usize, 0, 8, 4, 2, 6, 1, 3, 5, 7] {
        cell.remove(n);
        let list = cell.iter();
        assert_eq!(cell.count(), list.len());
        assert!(list.windows(2).all(|w| w[0] < w[1]));
        assert!(list.iter().all(|&m| cell.can_be(m)));
    }
    assert_eq!(cell.count(), 0);
}

#[test]
fn get_unique_needs_exactly_one_digit() {
    let mut cell = SolvingCell::new(None);
    for n in 0..7 {
        cell.remove(n);
    }
    assert_eq!(cell.iter(), vec![7, 8]);
    assert_eq!(cell.get_unique(), None);
    cell.remove(7);
    assert_eq!(cell.get_unique(), Some(8));
    cell.remove(8);
    assert_eq!(cell.get_unique(), None);
}

#[test]
fn to_solution_of_decided_board() {
    let mut board = Board([[SolvingCell::new(Some(0)); N]; N]);
    for i in 0..N {
        for j in 0..N {
            board.0[i][j] = SolvingCell::new(Some((i + 2 * j) % N));
        }
    }
    let solution = board.to_solution().unwrap();
    for i in 0..N {
        for j in 0..N {
            assert_eq!(solution.0[i][j], (i + 2 * j) % N);
        }
    }
}

#[test]
fn to_solution_fails_on_an_undecided_cell() {
    let mut board = Board([[SolvingCell::new(Some(3)); N]; N]);
    assert!(board.to_solution().is_some());
    board.0[8][8] = SolvingCell::new(None);
    assert_eq!(board.to_solution(), None);
    board.0[8][8] = SolvingCell::new(Some(1));
    board.0[0][0].remove(3);
    assert_eq!(board.to_solution(), None);
}

#[test]
fn blocks_cover_the_grid_once() {
    let mut seen = [[0usize; N]; N];
    for a in 0..3 {
        for b in 0..3 {
            let cells = block_iter(3 * a, 3 * b);
            assert_eq!(cells.len(), 9);
            for (i, j) in cells {
                assert_eq!((i / 3, j / 3), (a, b));
                seen[i][j] += 1;
            }
        }
    }
    assert_eq!(seen, [[1usize; N]; N]);
}

#[test]
fn emptiness_and_uniqueness_follow_the_count() {
    let mut cell = SolvingCell::new(None);
    for n in 0..N {
        assert_eq!(cell.is_empty(), cell.count() == 0);
        assert_eq!(cell.is_unique(), cell.count() == 1);
        assert_eq!(cell.is_unique(), cell.get_unique().is_some());
        cell.remove(n);
    }
    assert!(cell.is_empty());
    assert!(!cell.is_unique());
    assert!(SolvingCell::new(Some(0)).is_unique());
    assert!(!SolvingCell::new(Some(0)).is_empty());
    assert!(!SolvingCell::new(None).is_unique());
}
