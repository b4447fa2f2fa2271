use connect_tree::Result as Outcome;
use connect_tree::{empty_board, Board, GameNode, Player, StateIndex, Tree, WIDTH};

fn board_from(moves: &[(usize, Player)]) -> Board {
    let mut b = empty_board();
    for &(c, p) in moves {
        b.play(c, p).unwrap();
    }
    b
}

fn tree_from(board: Board, turn: Player, depth: u32) -> Tree {
    let root = GameNode::from_board(board, turn);
    let mut tree = Tree::from_root(&root);
    tree.explore(depth);
    tree
}

#[test]
fn no_win_nothing_kept() {
    let tree = tree_from(empty_board(), Player::Red, 2);
    let keep = tree.prune_to_wins(tree.root_index);
    assert_eq!(keep.len(), tree.nodes.len());
    assert!(keep.iter().all(|&k| !k));
}

#[test]
fn win_and_its_ancestors_kept() {
    let board = board_from(&[(0, Player::Red), (1, Player::Red), (2, Player::Red)]);
    let tree = tree_from(board, Player::Red, 1);
    let keep = tree.prune_to_wins(tree.root_index);
    let win = tree.nodes[0].children[3].unwrap();
    assert_eq!(tree.nodes[win.0].result, Outcome::Win(Player::Red));
    assert!(keep[0]);
    assert!(keep[win.0]);
    assert_eq!(keep.iter().filter(|&&k| k).count(), 2);
}

#[test]
fn win_marks_only_positions_leading_to_wins() {
    let board = board_from(&[(0, Player::Red), (1, Player::Red), (2, Player::Red)]);
    let tree = tree_from(board, Player::Yellow, 2);
    let keep = tree.prune_to_wins(tree.root_index);
    for (i, node) in tree.nodes.iter().enumerate() {
        if keep[i] {
            let leads = matches!(node.result, Outcome::Win(_))
                || node.children.iter().flatten().any(|h| keep[h.0]);
            assert!(leads);
        } else {
            assert!(!matches!(node.result, Outcome::Win(_)));
        }
    }
    assert!(keep[0]);
    // Yellow blocking in column 3 leaves no win within one more ply.
    let block = tree.nodes[0].children[3].unwrap();
    assert!(!keep[block.0]);
}

#[test]
fn target_equal_to_root_keeps_only_root() {
    let tree = tree_from(empty_board(), Player::Red, 2);
    let keep = tree.prune_to_target(tree.root_index, &empty_board());
    assert_eq!(keep.iter().filter(|&&k| k).count(), 1);
    assert!(keep[tree.root_index.0]);
}

#[test]
fn target_keeps_paths_to_it() {
    let tree = tree_from(empty_board(), Player::Red, 2);
    let target = board_from(&[(1, Player::Red), (4, Player::Yellow)]);
    let keep = tree.prune_to_target(tree.root_index, &target);
    // Root, the position after Red in column 1 (shared with column 5), and the target.
    assert_eq!(keep.iter().filter(|&&k| k).count(), 3);
    let first = tree.nodes[0].children[1].unwrap();
    assert!(keep[first.0]);
    let other = tree.nodes[0].children[3].unwrap();
    assert!(!keep[other.0]);
}

#[test]
fn mirrored_target_is_found() {
    let tree = tree_from(empty_board(), Player::Red, 2);
    let target = board_from(&[(5, Player::Red), (2, Player::Yellow)]);
    let mirrored = target.mirrored();
    let a = tree.prune_to_target(tree.root_index, &target);
    let b = tree.prune_to_target(tree.root_index, &mirrored);
    assert_eq!(a, b);
    assert_eq!(a.iter().filter(|&&k| k).count(), 3);
}

#[test]
fn compaction_keeps_marked_positions_in_order() {
    let mut tree = tree_from(empty_board(), Player::Red, 2);
    let target = board_from(&[(1, Player::Red), (4, Player::Yellow)]);
    let keep = tree.prune_to_target(tree.root_index, &target);
    let kept_boards: Vec<Board> = tree
        .nodes
        .iter()
        .zip(keep.iter())
        .filter(|(_, &k)| k)
        .map(|(n, _)| n.board.clone())
        .collect();
    tree.prune_to_win_nodes(&keep);
    assert_eq!(tree.nodes.len(), 3);
    assert_eq!(tree.root_index, StateIndex(0));
    for (i, node) in tree.nodes.iter().enumerate() {
        assert_eq!(node.index, Some(StateIndex(i)));
        assert_eq!(node.board.0, kept_boards[i].0);
        assert_eq!(node.children.len(), WIDTH);
        for c in node.children.iter().flatten() {
            assert!(c.0 < tree.nodes.len());
        }
    }
    assert_eq!(tree.table.len(), 3);
    // Root links the position after column 1 (and its mirror column 5), which links the target.
    assert_eq!(tree.nodes[0].children[1], Some(StateIndex(1)));
    assert_eq!(tree.nodes[0].children[5], Some(StateIndex(1)));
    assert_eq!(tree.nodes[0].children[0], None);
    assert_eq!(tree.count_children(), 3);
}

#[test]
fn compaction_without_root_resets_tree() {
    let mut tree = tree_from(empty_board(), Player::Red, 1);
    let keep = vec![false; tree.nodes.len()];
    tree.prune_to_win_nodes(&keep);
    assert_eq!(tree.nodes.len(), 1);
    assert_eq!(tree.root_index, StateIndex(0));
    assert_eq!(tree.nodes[0].board.0, empty_board().0);
    assert_eq!(tree.nodes[0].turn, Player::Red);
    assert_eq!(tree.nodes[0].children, vec![None; WIDTH]);
}

#[test]
fn compaction_of_everything_changes_nothing() {
    let mut tree = tree_from(empty_board(), Player::Red, 2);
    let before: Vec<Vec<Option<StateIndex>>> = tree.nodes.iter().map(|n| n.children.clone()).collect();
    let keep = vec![true; tree.nodes.len()];
    tree.prune_to_win_nodes(&keep);
    let after: Vec<Vec<Option<StateIndex>>> = tree.nodes.iter().map(|n| n.children.clone()).collect();
    assert_eq!(before, after);
}
