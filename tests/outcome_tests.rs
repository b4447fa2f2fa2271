use connect_tree::Result as Outcome;
use connect_tree::{empty_board, Board, Player};

fn board_from(moves: &[(usize, Player)]) -> Board {
    let mut b = empty_board();
    for &(c, p) in moves {
        b.play(c, p).unwrap();
    }
    b
}

#[test]
fn empty_board_is_ongoing() {
    assert_eq!(Outcome::from_board(&empty_board()), Outcome::Ongoing);
}

#[test]
fn horizontal_four_wins() {
    let b = board_from(&[(0, Player::Red), (1, Player::Red), (2, Player::Red), (3, Player::Red)]);
    assert_eq!(Outcome::from_board(&b), Outcome::Win(Player::Red));
}

#[test]
fn three_in_a_row_is_ongoing() {
    let b = board_from(&[(0, Player::Red), (1, Player::Red), (2, Player::Red)]);
    assert_eq!(Outcome::from_board(&b), Outcome::Ongoing);
}

#[test]
fn vertical_four_wins() {
    let b = board_from(&[
        (4, Player::Yellow),
        (4, Player::Yellow),
        (4, Player::Yellow),
        (4, Player::Yellow),
    ]);
    assert_eq!(Outcome::from_board(&b), Outcome::Win(Player::Yellow));
}

#[test]
fn rising_diagonal_wins() {
    let b = board_from(&[
        (0, Player::Red),
        (1, Player::Yellow),
        (1, Player::Red),
        (2, Player::Yellow),
        (2, Player::Yellow),
        (2, Player::Red),
        (3, Player::Yellow),
        (3, Player::Yellow),
        (3, Player::Yellow),
        (3, Player::Red),
    ]);
    assert_eq!(Outcome::from_board(&b), Outcome::Win(Player::Red));
}

#[test]
fn falling_diagonal_wins() {
    let b = board_from(&[
        (6, Player::Yellow),
        (5, Player::Red),
        (5, Player::Yellow),
        (4, Player::Red),
        (4, Player::Red),
        (4, Player::Yellow),
        (3, Player::Red),
        (3, Player::Red),
        (3, Player::Red),
        (3, Player::Yellow),
    ]);
    assert_eq!(Outcome::from_board(&b), Outcome::Win(Player::Yellow));
}

#[test]
fn first_line_in_scan_order_names_winner() {
    // Yellow's vertical line starts in column 0, before Red's horizontal line in row 0 of
    // columns 1 to 4.
    let b = board_from(&[
        (0, Player::Yellow),
        (0, Player::Yellow),
        (0, Player::Yellow),
        (0, Player::Yellow),
        (1, Player::Red),
        (2, Player::Red),
        (3, Player::Red),
        (4, Player::Red),
    ]);
    assert_eq!(Outcome::from_board(&b), Outcome::Win(Player::Yellow));
}

#[test]
fn full_board_without_line_is_draw() {
    let a = [Player::Red, Player::Red, Player::Yellow, Player::Yellow, Player::Red, Player::Red];
    let b = [Player::Yellow, Player::Yellow, Player::Red, Player::Red, Player::Yellow, Player::Yellow];
    let mut board = empty_board();
    for c in 0..7 {
        let col = if c % 2 == 0 { a } else { b };
        for &p in col.iter() {
            board.play(c, p).unwrap();
        }
    }
    assert_eq!(Outcome::from_board(&board), Outcome::Draw);
}
