use parbench::nqueens::{_nqueens_fast, nqueens, nqueens_par, nqueens_rayon, parse_threshold};

const KNOWN: [usize; 10] = [1, 1, 0, 0, 2, 10, 4, 40, 92, 352];

#[test]
fn nqueens_known_counts() {
    for n in 0..10 {
        let mut board = vec![0u8; n];
        assert_eq!(nqueens(&mut board, 0, n), KNOWN[n], "n = {}", n);
    }
}

#[test]
fn nqueens_par_known_counts_any_threshold() {
    for n in 0..10 {
        for threshold in [0usize, 1, 2, 6, 100] {
            let board = vec![0u8; n];
            assert_eq!(nqueens_par(board, 0, n, threshold), KNOWN[n], "n = {} t = {}", n, threshold);
        }
    }
}

#[test]
fn nqueens_fast_known_counts_any_threshold() {
    for n in 0..10 {
        for threshold in [0usize, 1, 3, 6, 100] {
            let mut board = vec![0u8; n];
            assert_eq!(_nqueens_fast(&mut board, 0, n, threshold), KNOWN[n]);
        }
    }
}

#[test]
fn nqueens_rayon_known_counts_any_threshold() {
    for n in 0..10 {
        for threshold in [0usize, 1, 3, 6, 100] {
            let mut board = vec![0u8; n];
            assert_eq!(nqueens_rayon(&mut board, 0, n, threshold), KNOWN[n]);
        }
    }
}

// Below the threshold the parallel variants work on copies and leave the board.
#[test]
fn nqueens_rayon_leaves_board_below_threshold() {
    let mut board = vec![7u8; 6];
    assert_eq!(nqueens_rayon(&mut board, 0, 6, 100), 4);
    assert_eq!(board, vec![7u8; 6]);
    let mut board = vec![7u8; 6];
    assert_eq!(_nqueens_fast(&mut board, 0, 6, 100), 4);
    assert_eq!(board, vec![7u8; 6]);
}

// A partial placement: queen in column 1 of row 0 on a 4x4 board has one completion.
#[test]
fn nqueens_partial_placement() {
    let mut board = vec![1u8, 0, 0, 0];
    assert_eq!(nqueens(&mut board, 1, 4), 1);
    assert_eq!(board[0], 1);
    let mut board = vec![0u8, 0, 0, 0];
    assert_eq!(nqueens(&mut board, 1, 4), 0);
    // row past the board size: the placement is complete.
    let mut board = vec![0u8, 2];
    assert_eq!(nqueens(&mut board, 5, 4), 1);
}

// The scratch rows hold the columns tried last along the last safe path.
#[test]
fn nqueens_scratch_board() {
    let mut board = vec![0u8; 4];
    assert_eq!(nqueens(&mut board, 0, 4), 2);
    assert_eq!(board, vec![3, 1, 2, 1]);
}

// Rows already placed do not change, and the rest does not matter.
#[test]
fn nqueens_only_prefix_matters() {
    let mut b1 = vec![0u8, 2, 9, 9, 9];
    let mut b2 = vec![0u8, 2, 4, 1, 3];
    assert_eq!(nqueens(&mut b1, 2, 5), nqueens(&mut b2, 2, 5));
    assert_eq!(&b1[..2], &[0, 2]);
}

// A board shorter than the size is fine as long as the search never reaches
// a row past its end: on three columns no queen ever gets to row 2.
#[test]
fn nqueens_short_board_that_fits() {
    let mut board = vec![0u8, 0];
    assert_eq!(nqueens(&mut board, 0, 3), 0);
    assert_eq!(nqueens_par(vec![0u8, 0], 0, 3, 0), 0);
    assert_eq!(nqueens_par(vec![0u8, 0], 0, 3, 100), 0);
    let mut board = vec![0u8, 0];
    assert_eq!(_nqueens_fast(&mut board, 0, 3, 100), 0);
    let mut board = vec![0u8, 0];
    assert_eq!(nqueens_rayon(&mut board, 0, 3, 100), 0);
}

#[test]
fn nqueens_parse_threshold() {
    assert_eq!(parse_threshold(None), 6);
    assert_eq!(parse_threshold(Some("")), 0);
    assert_eq!(parse_threshold(Some("12")), 12);
    assert_eq!(parse_threshold(Some("007")), 7);
}
