use tictactoe_q::tic_tac_toe::Board;
use tictactoe_q::tic_tac_toe::GameResult;
use tictactoe_q::tic_tac_toe::Piece;
use tictactoe_q::tic_tac_toe::Player;

#[test]
fn test_row_winner_all_empties() {
    let empty_board = Board::new(3);
    for row_num in 0..3 {
        assert_eq!(None, empty_board.row_winner(row_num))
    }
}

#[test]
fn test_row_winner_mixed() {
    let mut b = Board::new(3);
    b.set_cell(0, 0, Piece::X);
    b.set_cell(1, 1, Piece::X);
    b.set_cell(2, 1, Piece::X);
    assert_eq!(None, b.row_winner(0));
    assert_eq!(None, b.row_winner(1));
    assert_eq!(None, b.row_winner(2));
}

#[test]
fn test_row_winner_x_wins_first_row() {
    let mut b = Board::new(3);
    b.set_cell(0, 0, Piece::X);
    b.set_cell(0, 1, Piece::X);
    b.set_cell(0, 2, Piece::X);
    assert_eq!(Some(Player::X), b.row_winner(0));
}

#[test]
fn test_row_winner_x_wins_second_row() {
    let mut b = Board::new(3);
    b.set_cell(1, 0, Piece::X);
    b.set_cell(1, 1, Piece::X);
    b.set_cell(1, 2, Piece::X);
    assert_eq!(Some(Player::X), b.row_winner(1));
}

#[test]
fn test_row_winner_o_wins_first_row() {
    let mut b = Board::new(3);
    b.set_cell(0, 0, Piece::O);
    b.set_cell(0, 1, Piece::O);
    b.set_cell(0, 2, Piece::O);
    assert_eq!(Some(Player::O), b.row_winner(0));
}

#[test]
fn test_row_winner_o_wins_third_row() {
    let mut b = Board::new(3);
    b.set_cell(2, 0, Piece::O);
    b.set_cell(2, 1, Piece::O);
    b.set_cell(2, 2, Piece::O);
    assert_eq!(Some(Player::O), b.row_winner(2));
}

#[test]
fn test_col_winner_all_empties() {
    let empty_board = Board::new(3);
    for row_num in 0..3 {
        assert_eq!(None, empty_board.col_winner(row_num))
    }
}

#[test]
fn test_col_winner_mixed() {
    let mut b = Board::new(3);
    b.set_cell(0, 0, Piece::X);
    b.set_cell(1, 1, Piece::X);
    b.set_cell(2, 1, Piece::X);
    assert_eq!(None, b.col_winner(0));
    assert_eq!(None, b.col_winner(1));
    assert_eq!(None, b.col_winner(2));
}

#[test]
fn test_col_winner_x_wins_first_col() {
    let mut b = Board::new(3);
    b.set_cell(0, 0, Piece::X);
    b.set_cell(1, 0, Piece::X);
    b.set_cell(2, 0, Piece::X);
    assert_eq!(Some(Player::X), b.col_winner(0));
}

#[test]
fn test_col_winner_x_wins_second_col() {
    let mut b = Board::new(3);
    b.set_cell(0, 1, Piece::X);
    b.set_cell(1, 1, Piece::X);
    b.set_cell(2, 1, Piece::X);
    assert_eq!(Some(Player::X), b.col_winner(1));
}

#[test]
fn test_col_winner_o_wins_first_col() {
    let mut b = Board::new(3);
    b.set_cell(0, 0, Piece::O);
    b.set_cell(1, 0, Piece::O);
    b.set_cell(2, 0, Piece::O);
    assert_eq!(Some(Player::O), b.col_winner(0));
}

#[test]
fn test_col_winner_o_wins_third_col() {
    let mut b = Board::new(3);
    b.set_cell(0, 2, Piece::O);
    b.set_cell(1, 2, Piece::O);
    b.set_cell(2, 2, Piece::O);
    assert_eq!(Some(Player::O), b.col_winner(2));
}

#[test]
fn test_get_winner_x_row1() {
    let mut b = Board::new(3);
    b.set_cell(0, 0, Piece::X);
    b.set_cell(0, 1, Piece::X);
    b.set_cell(0, 2, Piece::X);
    assert_eq!(Some(GameResult::XWon), b.get_winner())
}

#[test]
fn test_get_winner_x_row2() {
    let mut b = Board::new(3);
    b.set_cell(1, 0, Piece::X);
    b.set_cell(1, 1, Piece::X);
    b.set_cell(1, 2, Piece::X);
    assert_eq!(Some(GameResult::XWon), b.get_winner())
}

#[test]
fn test_get_winner_x_row3() {
    let mut b = Board::new(3);
    b.set_cell(2, 0, Piece::X);
    b.set_cell(2, 1, Piece::X);
    b.set_cell(2, 2, Piece::X);
    assert_eq!(Some(GameResult::XWon), b.get_winner())
}

#[test]
fn test_get_winner_0_row1() {
    let mut b = Board::new(3);
    b.set_cell(0, 0, Piece::O);
    b.set_cell(0, 1, Piece::O);
    b.set_cell(0, 2, Piece::O);
    assert_eq!(Some(GameResult::OWon), b.get_winner())
}

#[test]
fn test_get_winner_0_row2() {
    let mut b = Board::new(3);
    b.set_cell(1, 0, Piece::O);
    b.set_cell(1, 1, Piece::O);
    b.set_cell(1, 2, Piece::O);
    assert_eq!(Some(GameResult::OWon), b.get_winner())
}

#[test]
fn test_get_winner_0_row3() {
    let mut b = Board::new(3);
    b.set_cell(2, 0, Piece::O);
    b.set_cell(2, 1, Piece::O);
    b.set_cell(2, 2, Piece::O);
    assert_eq!(Some(GameResult::OWon), b.get_winner())
}

#[test]
fn test_get_winner_x_col1() {
    let mut b = Board::new(3);
    b.set_cell(0, 0, Piece::X);
    b.set_cell(1, 0, Piece::X);
    b.set_cell(2, 0, Piece::X);
    assert_eq!(Some(GameResult::XWon), b.get_winner())
}

#[test]
fn test_get_winner_x_col2() {
    let mut b = Board::new(3);
    b.set_cell(0, 1, Piece::X);
    b.set_cell(1, 1, Piece::X);
    b.set_cell(2, 1, Piece::X);
    assert_eq!(Some(GameResult::XWon), b.get_winner())
}

#[test]
fn test_get_winner_x_col3() {
    let mut b = Board::new(3);
    b.set_cell(0, 2, Piece::X);
    b.set_cell(1, 2, Piece::X);
    b.set_cell(2, 2, Piece::X);
    assert_eq!(Some(GameResult::XWon), b.get_winner())
}

#[test]
fn test_get_winner_o_col1() {
    let mut b = Board::new(3);
    b.set_cell(0, 0, Piece::O);
    b.set_cell(1, 0, Piece::O);
    b.set_cell(2, 0, Piece::O);
    assert_eq!(Some(GameResult::OWon), b.get_winner())
}

#[test]
fn test_get_winner_o_col2() {
    let mut b = Board::new(3);
    b.set_cell(0, 1, Piece::O);
    b.set_cell(1, 1, Piece::O);
    b.set_cell(2, 1, Piece::O);
    assert_eq!(Some(GameResult::OWon), b.get_winner())
}

#[test]
fn test_get_winner_o_col3() {
    let mut b = Board::new(3);
    b.set_cell(0, 2, Piece::O);
    b.set_cell(1, 2, Piece::O);
    b.set_cell(2, 2, Piece::O);
    assert_eq!(Some(GameResult::OWon), b.get_winner())
}

#[test]
fn test_get_lr_diag_1() {
    let b = Board::new(3);
    for p in b.get_lr_diag() {
        assert_eq!(Piece::Empty, p)
    }
}

#[test]
fn test_get_lr_diag_2() {
    let mut b = Board::new(3);
    b.set_cell(2, 2, Piece::X);
    let want = [Piece::Empty, Piece::Empty, Piece::X];

    for (g, w) in b.get_lr_diag().into_iter().zip(want.into_iter()) {
        assert_eq!(w, g)
    }
}

#[test]
fn test_get_rl_diag_1() {
    let b = Board::new(3);
    for p in b.get_rl_diag() {
        assert_eq!(Piece::Empty, p)
    }
}

#[test]
fn test_get_rl_diag_2() {
    let mut b = Board::new(3);
    b.set_cell(1, 1, Piece::X);
    let want = [Piece::Empty, Piece::X, Piece::Empty];

    for (g, w) in b.get_rl_diag().into_iter().zip(want.into_iter()) {
        assert_eq!(w, g)
    }
}

#[test]
fn test_get_rl_diag_3() {
    let mut b = Board::new(3);
    b.set_cell(1, 1, Piece::X);
    b.set_cell(2, 0, Piece::O);
    let want = [Piece::Empty, Piece::X, Piece::O];

    for (g, w) in b.get_rl_diag().into_iter().zip(want.into_iter()) {
        assert_eq!(w, g);
    }
}

#[test]
fn test_get_winner_o_lr_diag() {
    let mut b = Board::new(3);
    b.set_cell(0, 0, Piece::O);
    b.set_cell(1, 1, Piece::O);
    b.set_cell(2, 2, Piece::O);
    assert_eq!(Some(GameResult::OWon), b.get_winner())
}

#[test]
fn test_get_winner_o_rl_diag() {
    let mut b = Board::new(3);
    b.set_cell(0, 2, Piece::O);
    b.set_cell(1, 1, Piece::O);
    b.set_cell(2, 0, Piece::O);
    assert_eq!(Some(GameResult::OWon), b.get_winner())
}

#[test]
fn test_get_winner_x_lr_diag() {
    let mut b = Board::new(3);
    b.set_cell(0, 0, Piece::X);
    b.set_cell(1, 1, Piece::X);
    b.set_cell(2, 2, Piece::X);
    assert_eq!(Some(GameResult::XWon), b.get_winner())
}

#[test]
fn test_get_winner_x_rl_diag() {
    let mut b = Board::new(3);
    b.set_cell(0, 2, Piece::X);
    b.set_cell(1, 1, Piece::X);
    b.set_cell(2, 0, Piece::X);
    assert_eq!(Some(GameResult::XWon), b.get_winner())
}

#[test]
fn test_is_ended1() {
    let b = Board::new(3);
    assert!(!b.is_ended())
}

#[test]
fn test_is_ended2() {
    let mut b = Board::new(3);
    for row in 0..3 {
        for col in 0..3 {
            b.set_cell(row, col, Piece::O);
        }
    }
    assert!(b.is_ended())
}

#[test]
fn test_get_valid_actions() {
    let b = Board::new(3);
    // Expect all the indices
    let mut want = Vec::new();
    for row in 0..3 {
        for col in 0..3 {
            want.push((row, col));
        }
    }
    assert_eq!(want, b.get_empty_spots());
}

#[test]
fn test_get_valid_actions_2() {
    let mut b = Board::new(3);
    b.set_cell(0, 2, Piece::X);
    b.set_cell(1, 2, Piece::X);
    b.set_cell(2, 2, Piece::X);
    b.set_cell(2, 0, Piece::X);
    b.set_cell(2, 1, Piece::X);
    // Expect all the indices
    let mut want = Vec::new();
    for row in 0..2 {
        for col in 0..2 {
            want.push((row, col));
        }
    }
    assert_eq!(want, b.get_empty_spots());
}
