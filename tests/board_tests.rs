use connect_tree::{empty_board, Board, ColumnFull, Player, HEIGHT, WIDTH};

fn board_from(moves: &[(usize, Player)]) -> Board {
    let mut b = empty_board();
    for &(c, p) in moves {
        b.play(c, p).unwrap();
    }
    b
}

#[test]
fn empty_board_has_no_pieces() {
    let b = empty_board();
    assert_eq!(b.0.len(), WIDTH);
    for col in b.0.iter() {
        assert_eq!(col.len(), HEIGHT);
        assert!(col.iter().all(|&c| c == Player::Empty));
    }
    assert_eq!(b.pieces_count(), 0);
}

#[test]
fn play_drops_to_lowest_empty_cell() {
    let mut b = empty_board();
    assert_eq!(b.play(3, Player::Red), Ok(()));
    assert_eq!(b.play(3, Player::Yellow), Ok(()));
    assert_eq!(b.0[3][0], Player::Red);
    assert_eq!(b.0[3][1], Player::Yellow);
    assert_eq!(b.0[3][2], Player::Empty);
    assert_eq!(b.height(3), 2);
    assert_eq!(b.pieces_count(), 2);
}

#[test]
fn play_on_full_column_fails() {
    let mut b = empty_board();
    for i in 0..HEIGHT {
        let p = if i % 2 == 0 { Player::Red } else { Player::Yellow };
        assert_eq!(b.play(0, p), Ok(()));
    }
    let before = b.clone();
    assert_eq!(b.play(0, Player::Red), Err(ColumnFull));
    assert_eq!(b.0, before.0);
}

#[test]
fn flip_swaps_players() {
    assert_eq!(Player::Red.flip(), Player::Yellow);
    assert_eq!(Player::Yellow.flip(), Player::Red);
}

#[test]
fn canonical_picks_smaller_of_board_and_mirror() {
    // Red in column 6 only: the mirror (Red in column 0) is smaller since Red < Empty.
    let b = board_from(&[(6, Player::Red)]);
    let c = b.canonical();
    assert_eq!(c.0[0][0], Player::Red);
    assert_eq!(c.0[6][0], Player::Empty);
    // Red in column 0 is already canonical.
    let d = board_from(&[(0, Player::Red)]);
    assert_eq!(d.canonical().0, d.0);
}

#[test]
fn canonical_is_idempotent() {
    let b = board_from(&[(5, Player::Red), (1, Player::Yellow), (5, Player::Red), (4, Player::Yellow)]);
    let once = b.canonical();
    let twice = once.canonical();
    assert_eq!(once.0, twice.0);
}

#[test]
fn board_and_mirror_share_canonical_form() {
    let b = board_from(&[(2, Player::Red), (6, Player::Yellow), (2, Player::Red)]);
    let m = b.mirrored();
    assert_eq!(m.0[4][0], Player::Red);
    assert_eq!(m.0[0][0], Player::Yellow);
    assert_eq!(b.canonical().0, m.canonical().0);
    assert_eq!(b.canonical().code(), m.canonical().code());
}

#[test]
fn symmetric_board_is_its_own_canonical_form() {
    let b = board_from(&[(3, Player::Red), (3, Player::Yellow)]);
    assert_eq!(b.mirrored().0, b.0);
    assert_eq!(b.canonical().0, b.0);
}

#[test]
fn codes_tell_boards_apart() {
    let a = board_from(&[(0, Player::Red)]);
    let b = board_from(&[(0, Player::Yellow)]);
    let c = board_from(&[(1, Player::Red)]);
    assert_ne!(a.code(), b.code());
    assert_ne!(a.code(), c.code());
    assert_ne!(empty_board().code(), a.code());
}

#[test]
fn empty_board_code_value() {
    // Every one of the 42 cells is the base-4 digit 2: the code is 2 * (4^42 - 1) / 3.
    let expected: u128 = (1u128 << 84) / 3 * 2;
    assert_eq!(empty_board().code(), expected);
}

#[test]
fn conflicts_with_target_columns() {
    let target = board_from(&[(0, Player::Red), (0, Player::Yellow), (3, Player::Red)]);
    // Every column is the bottom of the target's column: no conflict.
    let prefix = board_from(&[(0, Player::Red)]);
    assert!(!prefix.conflicts_with(&target));
    assert!(!empty_board().conflicts_with(&target));
    assert!(!target.conflicts_with(&target));
    // More pieces in a column than the target has.
    let taller = board_from(&[(5, Player::Red)]);
    assert!(taller.conflicts_with(&target));
    // As many pieces but different ones.
    let other = board_from(&[(0, Player::Red), (0, Player::Red)]);
    assert!(other.conflicts_with(&target));
    // Fewer pieces, even if they differ, cannot be ruled out by this column test.
    let shorter = board_from(&[(0, Player::Yellow)]);
    assert!(!shorter.conflicts_with(&target));
}

#[test]
fn same_position_up_to_mirror() {
    let a = board_from(&[(1, Player::Red), (4, Player::Yellow)]);
    let b = board_from(&[(5, Player::Red), (2, Player::Yellow)]);
    let c = board_from(&[(1, Player::Red), (2, Player::Yellow)]);
    assert!(a.same_position(&b));
    assert!(b.same_position(&a));
    assert!(a.same_position(&a));
    assert!(!a.same_position(&c));
}

#[test]
fn board_equality_is_up_to_mirror() {
    let a = board_from(&[(1, Player::Red), (4, Player::Yellow)]);
    let b = board_from(&[(5, Player::Red), (2, Player::Yellow)]);
    let c = board_from(&[(1, Player::Red), (2, Player::Yellow)]);
    assert!(a == b);
    assert!(a == a.mirrored());
    assert!(a != c);
    assert!(empty_board() == empty_board());
}

#[test]
fn malformed_boards_compare_cell_for_cell() {
    let short = Board(vec![vec![Player::Red]]);
    let same = Board(vec![vec![Player::Red]]);
    let other = Board(vec![vec![Player::Yellow]]);
    assert!(!short.is_valid());
    assert!(short == same);
    assert!(short != other);
    assert!(short != empty_board());
    let mut floating = empty_board();
    floating.0[2][3] = Player::Red;
    assert!(!floating.is_valid());
    assert!(empty_board().is_valid());
}
