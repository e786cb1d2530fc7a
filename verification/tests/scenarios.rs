use tictactoe_q::agent::Agent;
use tictactoe_q::tic_tac_toe::Board;
use tictactoe_q::tic_tac_toe::GameResult;
use tictactoe_q::tic_tac_toe::Piece;
use tictactoe_q::tic_tac_toe::Player;

#[test]
fn test_x_wins_top_row_after_third_mark() {
    // X fills the top row while O answers elsewhere without winning.
    let mut b = Board::new(3);
    assert_eq!(None, b.make_move(Player::X, 0, 0));
    assert_eq!(None, b.make_move(Player::O, 1, 0));
    assert_eq!(None, b.make_move(Player::X, 0, 1));
    assert_eq!(None, b.make_move(Player::O, 1, 1));
    assert_eq!(Some(GameResult::XWon), b.make_move(Player::X, 0, 2));
    assert_eq!(Some(GameResult::XWon), b.get_winner());
}

#[test]
fn test_full_board_without_a_line_is_a_tie() {
    // X O X
    // X O O
    // O X X
    let mut b = Board::new(3);
    let marks = [
        (0, 0, Piece::X),
        (0, 1, Piece::O),
        (0, 2, Piece::X),
        (1, 0, Piece::X),
        (1, 1, Piece::O),
        (1, 2, Piece::O),
        (2, 0, Piece::O),
        (2, 1, Piece::X),
        (2, 2, Piece::X),
    ];
    for (r, c, p) in marks {
        b.set_cell(r, c, p);
    }
    assert!(b.is_ended());
    assert!(b.get_empty_spots().is_empty());
    assert_eq!(None, b.get_winner());
}

#[test]
fn test_tied_final_move_reports_tie() {
    // The same alternating game played move by move: the ninth mark fills
    // the board with no line owned, so make_move reports the tie itself.
    let mut b = Board::new(3);
    assert_eq!(None, b.make_move(Player::X, 0, 0));
    assert_eq!(None, b.make_move(Player::O, 0, 1));
    assert_eq!(None, b.make_move(Player::X, 0, 2));
    assert_eq!(None, b.make_move(Player::O, 1, 1));
    assert_eq!(None, b.make_move(Player::X, 1, 0));
    assert_eq!(None, b.make_move(Player::O, 1, 2));
    assert_eq!(None, b.make_move(Player::X, 2, 1));
    assert_eq!(None, b.make_move(Player::O, 2, 0));
    assert_eq!(Some(GameResult::Tie), b.make_move(Player::X, 2, 2));
}

#[test]
fn test_no_result_before_fifth_move_on_three_board() {
    // On a 3-by-3 board a result takes at least 2 * 3 - 1 = 5 moves.
    let mut b = Board::new(3);
    assert_eq!(None, b.make_move(Player::X, 1, 1));
    assert_eq!(None, b.make_move(Player::O, 0, 0));
    assert_eq!(None, b.make_move(Player::X, 0, 1));
    assert_eq!(None, b.make_move(Player::O, 2, 1));
}

#[test]
fn test_single_cell_board_is_won_by_the_only_move() {
    // With side 1 the minimum 2 * 1 - 1 = 1 is tight: the first move wins.
    let mut b = Board::new(1);
    assert_eq!(Some(GameResult::XWon), b.make_move(Player::X, 0, 0));
}

#[test]
fn test_empty_spots_are_the_complement_in_row_major_order() {
    let mut b = Board::new(3);
    b.set_cell(0, 1, Piece::X);
    b.set_cell(2, 0, Piece::O);
    let spots = b.get_empty_spots();
    assert_eq!(vec![(0, 0), (0, 2), (1, 0), (1, 1), (1, 2), (2, 1), (2, 2)], spots);
}

#[test]
fn test_empty_spots_shrink_by_one_per_move() {
    let mut b = Board::new(3);
    let mut player = Player::X;
    let mut remaining: usize = 9;
    assert_eq!(remaining, b.get_empty_spots().len());
    for (r, c) in [(0, 0), (1, 1), (0, 1), (2, 2), (1, 0)] {
        b.make_move(player, r, c);
        player = player.next_player();
        remaining -= 1;
        assert_eq!(remaining, b.get_empty_spots().len());
    }
}

#[test]
fn test_one_episode_on_a_larger_board() {
    // One self-play episode finishes in finitely many plies for side 4 too.
    let mut agent = Agent::new(4);
    agent.learn_one_game();
    agent.learn_one_game();
}

#[test]
fn test_next_player_alternates() {
    assert_eq!(Player::O, Player::X.next_player());
    assert_eq!(Player::X, Player::O.next_player());
}

#[test]
fn test_get_col_reads_a_column() {
    let mut b = Board::new(3);
    b.set_cell(0, 2, Piece::X);
    b.set_cell(2, 2, Piece::O);
    assert_eq!(vec![Piece::X, Piece::Empty, Piece::O], b.get_col(2));
}
