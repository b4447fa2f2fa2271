use std::collections::HashSet;

use connect_tree::Result as Outcome;
use connect_tree::{empty_board, Board, ColumnFull, GameNode, Player, StateIndex, Tree, HEIGHT, WIDTH};

fn board_from(moves: &[(usize, Player)]) -> Board {
    let mut b = empty_board();
    for &(c, p) in moves {
        b.play(c, p).unwrap();
    }
    b
}

fn explored(depth: u32) -> Tree {
    let root = GameNode::from_board(empty_board(), Player::Red);
    let mut tree = Tree::from_root(&root);
    tree.explore(depth);
    tree
}

fn child(tree: &Tree, at: StateIndex, col: usize) -> StateIndex {
    tree.nodes[at.0].children[col].unwrap()
}

#[test]
fn from_board_computes_result() {
    let node = GameNode::from_board(empty_board(), Player::Red);
    assert_eq!(node.result, Outcome::Ongoing);
    assert_eq!(node.turn, Player::Red);
    assert_eq!(node.children, vec![None; WIDTH]);
    assert_eq!(node.index, None);
    assert_eq!(node.count_children(), 0);
}

#[test]
fn from_turn_flips_turn_and_computes_result() {
    let node = GameNode::from_board(empty_board(), Player::Red);
    let next = node.from_turn(2).unwrap();
    assert_eq!(next.turn, Player::Yellow);
    assert_eq!(next.board.0[2][0], Player::Red);
    assert_eq!(next.result, Outcome::Ongoing);
    assert_eq!(node.board.0[2][0], Player::Empty);
}

#[test]
fn three_in_a_row_then_win() {
    let board = board_from(&[(0, Player::Red), (1, Player::Red), (2, Player::Red)]);
    let node = GameNode::from_board(board, Player::Red);
    assert_eq!(node.result, Outcome::Ongoing);
    let next = node.from_turn(3).unwrap();
    assert_eq!(next.result, Outcome::Win(Player::Red));
    let mut same = GameNode::from_board(node.board.clone(), Player::Red);
    assert_eq!(same.play_col(3), Ok(()));
    assert_eq!(same.result, Outcome::Win(Player::Red));
}

#[test]
fn move_into_full_column_gives_none() {
    let mut board = empty_board();
    for i in 0..HEIGHT {
        board.play(1, if i % 2 == 0 { Player::Red } else { Player::Yellow }).unwrap();
    }
    let mut node = GameNode::from_board(board, Player::Red);
    assert!(node.board_from_turn(1).is_none());
    assert!(node.from_turn(1).is_none());
    assert!(node.board_from_turn(0).is_some());
    assert_eq!(node.play_col(1), Err(ColumnFull));
}

#[test]
fn flip_turn_changes_side_to_move() {
    let mut node = GameNode::from_board(empty_board(), Player::Yellow);
    node.flip_turn();
    assert_eq!(node.turn, Player::Red);
    node.flip_turn();
    assert_eq!(node.turn, Player::Yellow);
}

#[test]
fn from_root_holds_only_root() {
    let tree = explored(0);
    assert_eq!(tree.nodes.len(), 1);
    assert_eq!(tree.root_index, StateIndex(0));
    assert_eq!(tree.nodes[0].index, Some(StateIndex(0)));
    assert_eq!(tree.table.len(), 1);
    assert_eq!(tree.count_children(), 0);
}

#[test]
fn explore_one_ply_from_empty_board() {
    let tree = explored(1);
    let root = tree.root_index;
    assert_eq!(tree.num_children(&root), WIDTH);
    let ok = tree.iter_ok_children(&root);
    assert_eq!(ok.len(), 7);
    for h in ok.iter() {
        assert_eq!(tree.get_node(h).result, Outcome::Ongoing);
        assert_eq!(tree.get_node(h).turn, Player::Yellow);
    }
    // A move and its mirror lead to one position: columns c and 6 - c share a handle.
    for c in 0..WIDTH {
        assert_eq!(ok[c], ok[WIDTH - 1 - c]);
    }
    let distinct: HashSet<usize> = ok.iter().map(|h| h.0).collect();
    assert_eq!(distinct.len(), 4);
    assert_eq!(tree.nodes.len(), 5);
    assert_eq!(tree.count_children(), 7);
}

#[test]
fn explore_two_plies_counts() {
    let tree = explored(2);
    assert_eq!(tree.nodes.len(), 30);
    assert_eq!(tree.count_children(), 35);
}

#[test]
fn every_expanded_slot_matches_column_room() {
    let mut board = empty_board();
    for i in 0..HEIGHT {
        board.play(0, if i % 2 == 0 { Player::Yellow } else { Player::Red }).unwrap();
    }
    let root = GameNode::from_board(board, Player::Red);
    let mut tree = Tree::from_root(&root);
    tree.explore(2);
    for node in tree.nodes.iter() {
        assert_eq!(node.children.len(), WIDTH);
        if node.children.iter().any(|c| c.is_some()) {
            for c in 0..WIDTH {
                let full = node.board.height(c) == HEIGHT;
                assert_eq!(node.children[c].is_none(), full);
            }
        }
    }
    assert!(tree.nodes[0].children[0].is_none());
    assert!(tree.nodes[0].children[1].is_some());
}

#[test]
fn transposition_map_is_one_to_one() {
    let tree = explored(3);
    let codes: HashSet<u128> = tree.nodes.iter().map(|n| n.board.canonical().code()).collect();
    assert_eq!(codes.len(), tree.nodes.len());
    assert_eq!(tree.table.len(), tree.nodes.len());
    for (i, n) in tree.nodes.iter().enumerate() {
        assert_eq!(n.index, Some(StateIndex(i)));
        assert_eq!(tree.table[&n.board.canonical().code()], i);
    }
}

#[test]
fn transposed_move_orders_share_a_handle() {
    let tree = explored(3);
    let root = tree.root_index;
    let a = child(&tree, child(&tree, child(&tree, root, 0), 1), 2);
    let b = child(&tree, child(&tree, child(&tree, root, 2), 1), 0);
    assert_eq!(a, b);
    assert_eq!(a, StateIndex(13));
}

#[test]
fn explore_further_expands_a_leaf() {
    let mut tree = explored(1);
    let leaf = child(&tree, tree.root_index, 3);
    assert_eq!(tree.num_children(&leaf), 0);
    let before = tree.nodes.len();
    tree.explore_further(1, leaf);
    assert_eq!(tree.num_children(&leaf), WIDTH);
    assert!(tree.nodes.len() > before);
    let slots = tree.iter_children(&leaf);
    assert_eq!(slots.len(), WIDTH);
    assert!(slots.iter().all(|s| s.is_some()));
}

#[test]
fn rediscovered_position_is_not_expanded_again() {
    let mut tree = explored(1);
    let before = tree.nodes.len();
    // Exploring the root once more only relinks the positions it already has.
    tree.explore(3);
    assert_eq!(tree.nodes.len(), before);
}

#[test]
fn terminal_root_is_not_expanded() {
    let board = board_from(&[(0, Player::Red), (1, Player::Red), (2, Player::Red), (3, Player::Red)]);
    let root = GameNode::from_board(board, Player::Yellow);
    let mut tree = Tree::from_root(&root);
    tree.explore(4);
    assert_eq!(tree.nodes.len(), 1);
    assert_eq!(tree.count_children(), 0);
}

#[test]
fn get_board_returns_stored_board() {
    let tree = explored(1);
    let h = child(&tree, tree.root_index, 2);
    assert_eq!(tree.get_board(&h).0[2][0], Player::Red);
    assert_eq!(tree.get_board(&tree.root_index).pieces_count(), 0);
}

#[test]
fn children_have_the_other_side_to_move() {
    let tree = explored(3);
    for node in tree.nodes.iter() {
        for h in node.children.iter().flatten() {
            assert_eq!(tree.nodes[h.0].turn, node.turn.flip());
            assert_eq!(tree.nodes[h.0].board.pieces_count(), node.board.pieces_count() + 1);
        }
    }
}

#[test]
fn expansion_stops_at_depth() {
    let tree = explored(2);
    for node in tree.nodes.iter() {
        let plies = node.board.pieces_count();
        assert!(plies <= 2);
        let expanded = node.children.iter().any(|c| c.is_some());
        assert_eq!(expanded, plies < 2 && node.result == Outcome::Ongoing);
    }
}

#[test]
fn won_positions_stay_leaves() {
    let board = board_from(&[(0, Player::Red), (1, Player::Red), (2, Player::Red)]);
    let root = GameNode::from_board(board, Player::Red);
    let mut tree = Tree::from_root(&root);
    tree.explore(3);
    let win = child(&tree, tree.root_index, 3);
    assert_eq!(tree.nodes[win.0].result, Outcome::Win(Player::Red));
    assert_eq!(tree.num_children(&win), 0);
    for node in tree.nodes.iter() {
        if node.result != Outcome::Ongoing {
            assert!(node.children.iter().all(|c| c.is_none()));
        }
    }
}
