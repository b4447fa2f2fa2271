//! One position of the game: board, side to move, result and links to the positions after
//! each move.
use vstd::prelude::*;

use crate::board::{is_full, opponent, played, Board, ColumnFull, Player, WIDTH};
use crate::outcome::{result_of, Result};

verus! {

/// Handle of a position: its slot in the arena of a tree.
#[derive(Debug, Copy, Clone, PartialEq, Eq, Structural, PartialOrd, Ord, Hash)]
pub struct StateIndex(pub usize);

/// `WIDTH` empty child slots.
pub open spec fn no_children() -> Seq<Option<StateIndex>> {
    Seq::new(WIDTH as nat, |c: int| None)
}

/// Number of slots that hold a child.
pub open spec fn count_some(s: Seq<Option<StateIndex>>) -> nat
    decreases s.len(),
{
    if s.len() == 0 {
        0
    } else {
        count_some(s.drop_last()) + if s.last() is Some {
            1nat
        } else {
            0nat
        }
    }
}

/// The handles held by the slots, in slot order.
pub open spec fn somes(s: Seq<Option<StateIndex>>) -> Seq<StateIndex>
    decreases s.len(),
{
    if s.len() == 0 {
        Seq::empty()
    } else {
        match s.last() {
            Some(h) => somes(s.drop_last()).push(h),
            None => somes(s.drop_last()),
        }
    }
}

/// A position: the board as played, the side to move, the result of the board, one child slot
/// per column (slot `i` is the position after a move in column `i`), and the handle of the
/// position once it stands in an arena.
#[derive(Debug, Clone)]
pub struct GameNode {
    pub board: Board,
    pub turn: Player,
    pub result: Result,
    pub children: Vec<Option<StateIndex>>,
    pub index: Option<StateIndex>,
}

fn empty_slots() -> (r: Vec<Option<StateIndex>>)
    ensures
        r@ == no_children(),
{
    let mut v: Vec<Option<StateIndex>> = Vec::new();
    let mut i: usize = 0;
    while i < WIDTH
        invariant
            i <= WIDTH,
            v@ == Seq::new(i as nat, |c: int| None::<StateIndex>),
        decreases WIDTH - i,
    {
        v.push(None);
        i += 1;
        proof {
            assert(v@ =~= Seq::new(i as nat, |c: int| None::<StateIndex>));
        }
    }
    v
}

impl GameNode {
    /// A well-formed board, a real player to move, the result of that board, and one slot
    /// per column.
    pub open spec fn wf(&self) -> bool {
        &&& self.board.wf()
        &&& self.turn != Player::Empty
        &&& self.result == result_of(self.board@)
        &&& self.children@.len() == WIDTH
    }

    /// A position on `board` with `turn` to move and no children yet; its result is computed
    /// from the board.
    pub fn from_board(board: Board, turn: Player) -> (r: GameNode)
        requires
            board.wf(),
            turn != Player::Empty,
        ensures
            r.wf(),
            r.board@ == board@,
            r.turn == turn,
            r.children@ == no_children(),
            r.index is None,
    {
        let result = Result::from_board(&board);
        GameNode { board, turn, result, children: empty_slots(), index: None }
    }

    /// The board after the side to move plays in `col`, or `None` when that column is full.
    pub fn board_from_turn(&self, col: usize) -> (r: Option<Board>)
        requires
            self.board.wf(),
            col < WIDTH,
        ensures
            r is None <==> is_full(self.board@, col as int),
            r matches Some(b) ==> b@ == played(self.board@, col as int, self.turn) && b.wf(),
    {
        let mut board = self.board.copied();
        match board.play(col, self.turn) {
            Ok(()) => Some(board),
            Err(_) => None,
        }
    }

    /// The position after the side to move plays in `col`: the other player moves next and
    /// the result is that of the new board. `None` when the column is full.
    pub fn from_turn(&self, col: usize) -> (r: Option<GameNode>)
        requires
            self.wf(),
            col < WIDTH,
        ensures
            r is None <==> is_full(self.board@, col as int),
            r matches Some(n) ==> {
                &&& n.wf()
                &&& n.board@ == played(self.board@, col as int, self.turn)
                &&& n.turn == opponent(self.turn)
                &&& n.children@ == no_children()
                &&& n.index is None
            },
    {
        match self.board_from_turn(col) {
            Some(board) => Some(GameNode::from_board(board, self.turn.flip())),
            None => None,
        }
    }

    /// Plays the side to move in `col` on this position's own board and recomputes its result.
    /// A full column is refused and nothing changes.
    pub fn play_col(&mut self, col: usize) -> (r: std::result::Result<(), ColumnFull>)
        requires
            old(self).wf(),
            col < WIDTH,
        ensures
            final(self).wf(),
            r is Err <==> is_full(old(self).board@, col as int),
            r is Ok ==> final(self).board@ == played(old(self).board@, col as int, old(self).turn),
            r is Err ==> final(self).board@ == old(self).board@,
            final(self).turn == old(self).turn,
            final(self).children@ == old(self).children@,
            final(self).index == old(self).index,
    {
        match self.board.play(col, self.turn) {
            Ok(()) => {
                self.result = Result::from_board(&self.board);
                Ok(())
            },
            Err(e) => Err(e),
        }
    }

    /// Hands the move to the other player.
    pub fn flip_turn(&mut self)
        requires
            old(self).turn != Player::Empty,
        ensures
            final(self).turn == opponent(old(self).turn),
            final(self).board@ == old(self).board@,
            final(self).result == old(self).result,
            final(self).children@ == old(self).children@,
            final(self).index == old(self).index,
    {
        self.turn = self.turn.flip();
    }

    /// Number of child slots that hold a position.
    pub fn count_children(&self) -> (r: usize)
        ensures
            r == count_some(self.children@),
            r <= self.children@.len(),
    {
        let mut n: usize = 0;
        let mut i: usize = 0;
        while i < self.children.len()
            invariant
                i <= self.children@.len(),
                n == count_some(self.children@.subrange(0, i as int)),
                n <= i,
            decreases self.children@.len() - i,
        {
            proof {
                assert(self.children@.subrange(0, i as int + 1).drop_last() =~= self.children@.subrange(
                    0,
                    i as int,
                ));
            }
            if self.children[i].is_some() {
                n += 1;
            }
            i += 1;
        }
        proof {
            assert(self.children@.subrange(0, i as int) =~= self.children@);
        }
        n
    }
}

} // verus!
