//! The arena of positions, its transposition map, and depth-bounded exploration.
use std::collections::HashMap;

use vstd::prelude::*;

use crate::board::{
    canon, grid_code, is_full, lemma_canon_code, lemma_canon_valid, lemma_code_fits,
    lemma_pieces_canon, lemma_pieces_played, opponent, pieces, played, Board, Player, WIDTH,
};
use crate::node::{count_some, no_children, somes, GameNode, StateIndex};
use crate::outcome::Result;

verus! {

broadcast use vstd::std_specs::hash::group_hash_axioms;

/// Key of a position in the transposition map: the code of its canonical board.
pub open spec fn node_key(n: GameNode) -> u128 {
    grid_code(canon(n.board@)) as u128
}

/// Slot `c` of position `i` is empty, or holds a position of the arena whose board is, up to
/// mirroring, the board after the move in column `c`.
pub open spec fn edge_ok(ns: Seq<GameNode>, i: int, c: int) -> bool {
    match ns[i].children@[c] {
        Some(h) => {
            &&& 0 <= h.0 < ns.len()
            &&& !is_full(ns[i].board@, c)
            &&& canon(ns[h.0 as int].board@) == canon(played(ns[i].board@, c, ns[i].turn))
            &&& ns[h.0 as int].turn == opponent(ns[i].turn)
        },
        None => true,
    }
}

/// The sides to move of two positions agree exactly when their numbers of pieces have the
/// same parity.
pub open spec fn turn_parity(a: GameNode, b: GameNode) -> bool {
    (a.turn == b.turn) == ((pieces(a.board@) - pieces(b.board@)) % 2 == 0)
}

/// With one piece more than `a`, position `b` follows the parity of `p0` exactly when the
/// other player is to move in `b`.
pub proof fn lemma_step_parity(p0: GameNode, a: GameNode, b: GameNode)
    requires
        p0.turn != Player::Empty,
        a.turn != Player::Empty,
        b.turn != Player::Empty,
        turn_parity(a, p0),
        pieces(b.board@) == pieces(a.board@) + 1,
    ensures
        (b.turn == opponent(a.turn)) == turn_parity(b, p0),
{
}

/// A position linked in slot `c` of `a` holds one piece more than `a`.
pub proof fn lemma_link_pieces(a: GameNode, b: GameNode, c: int)
    requires
        a.wf(),
        b.wf(),
        0 <= c < WIDTH,
        !is_full(a.board@, c),
        canon(b.board@) == canon(played(a.board@, c, a.turn)),
    ensures
        pieces(b.board@) == pieces(a.board@) + 1,
{
    crate::board::lemma_played(a.board@, c, a.turn);
    lemma_pieces_played(a.board@, c, a.turn);
    lemma_pieces_canon(b.board@, played(a.board@, c, a.turn));
}

/// The map sends the key of each position to its handle and holds nothing else.
pub open spec fn table_ok(ns: Seq<GameNode>, m: Map<u128, usize>) -> bool {
    &&& forall|i: int|
        0 <= i < ns.len() ==> m.contains_key(node_key(#[trigger] ns[i])) && m[node_key(ns[i])] == i
    &&& forall|k: u128| #[trigger]
        m.contains_key(k) ==> m[k] < ns.len() && node_key(ns[m[k] as int]) == k
    &&& m.dom().len() == ns.len()
}

/// No slot of the position holds a child: it has not been expanded.
pub open spec fn unexpanded(n: GameNode) -> bool {
    forall|c: int| 0 <= c < n.children@.len() ==> #[trigger] n.children@[c] is None
}

/// Each slot of the position holds a child exactly when its column has room.
pub open spec fn expanded(n: GameNode) -> bool {
    forall|c: int| 0 <= c < WIDTH ==> (#[trigger] n.children@[c] is None <==> is_full(n.board@, c))
}

/// A position is expanded when it is still in play and `ply` is below `depth`, and has no
/// children otherwise.
pub open spec fn expanded_by_ply(n: GameNode, ply: int, depth: int) -> bool {
    if n.result == Result::Ongoing && ply < depth {
        expanded(n)
    } else {
        unexpanded(n)
    }
}

/// Position `p` holds position `i` in one of its child slots.
pub open spec fn links(ns: Seq<GameNode>, p: int, i: int) -> bool {
    exists|c: int| 0 <= c < WIDTH && #[trigger] ns[p].children@[c] == Some(StateIndex(i as usize))
}

/// Position `i`, added by an exploration of `at` for `depth` plies to an arena that held `n0`
/// positions, lies `ply[i]` plies below `at`, between 1 and `depth`; it is linked from `at` or
/// from a position added before it that lies one ply higher; and it is expanded exactly when
/// it is in play and lies above `depth`.
pub open spec fn reached_within(ns: Seq<GameNode>, n0: int, at: int, depth: int, ply: Seq<int>, i: int) -> bool {
    &&& 1 <= ply[i] <= depth
    &&& exists|p: int| (p == at || n0 <= p < i) && ply[p] + 1 == ply[i] && #[trigger] links(ns, p, i)
    &&& expanded_by_ply(ns[i], ply[i], depth)
}

/// The positions from `n0` on are those an exploration of `at` for `depth` plies added: each
/// has a ply below `at` (which has ply 0) fixed when it was first found, and was expanded
/// according to it.
pub open spec fn explored_within(ns: Seq<GameNode>, n0: int, at: int, depth: int) -> bool {
    exists|ply: Seq<int>|
        ply.len() == ns.len() && ply[at] == 0 && forall|i: int|
            n0 <= i < ns.len() ==> #[trigger] reached_within(ns, n0, at, depth, ply, i)
}

/// As `reached_within`, with the parent `par[i]` and the slot `slot[i]` that links `i` named.
pub open spec fn found_at(
    ns: Seq<GameNode>,
    n0: int,
    at: int,
    depth: int,
    ply: Seq<int>,
    par: Seq<int>,
    slot: Seq<int>,
    i: int,
) -> bool {
    let p = par[i];
    &&& 1 <= ply[i] <= depth
    &&& (p == at || n0 <= p < i)
    &&& ply[p] + 1 == ply[i]
    &&& 0 <= slot[i] < WIDTH
    &&& ns[p].children@[slot[i]] == Some(StateIndex(i as usize))
    &&& expanded_by_ply(ns[i], ply[i], depth)
}

/// Every position from `n0` on satisfies `found_at`.
pub open spec fn found_by(
    ns: Seq<GameNode>,
    n0: int,
    at: int,
    depth: int,
    ply: Seq<int>,
    par: Seq<int>,
    slot: Seq<int>,
) -> bool {
    &&& ply.len() == ns.len()
    &&& par.len() == ns.len()
    &&& slot.len() == ns.len()
    &&& ply[at] == 0
    &&& forall|i: int| n0 <= i < ns.len() ==> #[trigger] found_at(ns, n0, at, depth, ply, par, slot, i)
}

/// Two positions agree on all but their children.
pub open spec fn same_state(a: GameNode, b: GameNode) -> bool {
    &&& a.board@ == b.board@
    &&& a.turn == b.turn
    &&& a.result == b.result
    &&& a.index == b.index
}

/// In a well-formed tree the transposition map is one-to-one: no two positions share a
/// canonical board, and the map holds exactly one entry per position.
pub proof fn transpositions_distinct(t: &Tree)
    requires
        t.wf(),
    ensures
        forall|i: int, j: int|
            0 <= i < t.nodes@.len() && 0 <= j < t.nodes@.len() && i != j ==> canon(
                #[trigger] t.nodes@[i].board@,
            ) != canon(#[trigger] t.nodes@[j].board@),
        t.table@.dom().len() == t.nodes@.len(),
{
    let ns = t.nodes@;
    assert forall|i: int, j: int|
        0 <= i < ns.len() && 0 <= j < ns.len() && i != j implies canon(#[trigger] ns[i].board@) != canon(
            #[trigger] ns[j].board@,
        ) by {
        if canon(ns[i].board@) == canon(ns[j].board@) {
            assert(node_key(ns[i]) == node_key(ns[j]));
            assert(t.table@[node_key(ns[i])] == i);
        }
    }
}

/// All positions discovered from a root, each stored once up to mirroring.
pub struct Tree {
    /// The arena: the position with handle `i` stands at `nodes[i]`.
    pub nodes: Vec<GameNode>,
    /// Handle of the starting position.
    pub root_index: StateIndex,
    /// Transposition map: the code of a canonical board to the handle of its position.
    pub table: HashMap<u128, usize>,
}

impl Tree {
    /// The arena is non-empty and holds the root; every position is well formed and knows its
    /// own handle; sides to move alternate with the number of pieces; every child link is
    /// sound; the map matches the arena.
    pub open spec fn wf(&self) -> bool {
        let ns = self.nodes@;
        &&& ns.len() >= 1
        &&& self.root_index.0 < ns.len()
        &&& forall|i: int|
            0 <= i < ns.len() ==> (#[trigger] ns[i]).wf() && ns[i].index == Some(
                StateIndex(i as usize),
            )
        &&& forall|i: int| 0 <= i < ns.len() ==> turn_parity(#[trigger] ns[i], ns[0])
        &&& forall|i: int, c: int| 0 <= i < ns.len() && 0 <= c < WIDTH ==> #[trigger] edge_ok(ns, i, c)
        &&& table_ok(ns, self.table@)
    }

    /// Every position is either not expanded yet or has a child in exactly the columns that
    /// have room.
    pub open spec fn explored_shape(&self) -> bool {
        forall|i: int|
            0 <= i < self.nodes@.len() ==> unexpanded(#[trigger] self.nodes@[i]) || expanded(
                self.nodes@[i],
            )
    }

    /// A tree whose arena holds only `root`, at handle 0.
    pub fn from_root(root: &GameNode) -> (r: Tree)
        requires
            root.wf(),
        ensures
            r.wf(),
            r.explored_shape(),
            r.nodes@.len() == 1,
            r.root_index == StateIndex(0),
            r.nodes@[0].board@ == root.board@,
            r.nodes@[0].turn == root.turn,
            r.nodes@[0].children@ == no_children(),
    {
        let mut node = GameNode::from_board(root.board.copied(), root.turn);
        node.index = Some(StateIndex(0));
        let key = root.board.canonical().code();
        let mut table: HashMap<u128, usize> = HashMap::new();
        table.insert(key, 0);
        let mut nodes: Vec<GameNode> = Vec::new();
        nodes.push(node);
        let r = Tree { nodes, root_index: StateIndex(0), table };
        proof {
            lemma_canon_valid(root.board@);
            lemma_code_fits(canon(root.board@));
            assert(node_key(r.nodes@[0]) == key);
            assert(r.table@.dom() =~= set![key]);
            assert(r.table@.dom().len() == 1);
            assert(edge_ok(r.nodes@, 0, 0));
        }
        r
    }

    fn set_child(&mut self, at: usize, c: usize, v: Option<StateIndex>)
        requires
            at < old(self).nodes@.len(),
            c < old(self).nodes@[at as int].children@.len(),
        ensures
            final(self).nodes@.len() == old(self).nodes@.len(),
            forall|i: int|
                0 <= i < old(self).nodes@.len() && i != at ==> final(self).nodes@[i] == old(self).nodes@[i],
            same_state(final(self).nodes@[at as int], old(self).nodes@[at as int]),
            final(self).nodes@[at as int].children@ == old(self).nodes@[at as int].children@.update(
                c as int,
                v,
            ),
            final(self).root_index == old(self).root_index,
            final(self).table@ == old(self).table@,
    {
        self.nodes[at].children.set(c, v);
    }

    /// Expands position `at` for up to `depth` plies; see `explore_further`.
    fn expand(&mut self, at: usize, depth: u32) -> (w: Ghost<(Seq<int>, Seq<int>, Seq<int>)>)
        requires
            old(self).wf(),
            at < old(self).nodes@.len(),
        ensures
            final(self).wf(),
            final(self).root_index == old(self).root_index,
            old(self).nodes@.len() <= final(self).nodes@.len(),
            forall|i: int|
                0 <= i < old(self).nodes@.len() ==> same_state(
                    #[trigger] final(self).nodes@[i],
                    old(self).nodes@[i],
                ),
            forall|i: int|
                0 <= i < old(self).nodes@.len() && i != at ==> (#[trigger] final(self).nodes@[i]).children@
                    == old(self).nodes@[i].children@,
            found_by(
                final(self).nodes@,
                old(self).nodes@.len() as int,
                at as int,
                depth as int,
                w@.0,
                w@.1,
                w@.2,
            ),
            depth == 0 || old(self).nodes@[at as int].result != Result::Ongoing ==> final(self).nodes@ == old(self).nodes@,
            depth > 0 && old(self).nodes@[at as int].result == Result::Ongoing ==> expanded(
                final(self).nodes@[at as int],
            ),
        decreases depth,
    {
        let ghost n0 = self.nodes@.len();
        let ghost mut ply: Seq<int> = Seq::new(n0 as nat, |i: int| 0int);
        let ghost mut par: Seq<int> = Seq::new(n0 as nat, |i: int| 0int);
        let ghost mut slot: Seq<int> = Seq::new(n0 as nat, |i: int| 0int);
        if depth == 0 || self.nodes[at].result != Result::Ongoing {
            return Ghost((ply, par, slot));
        }
        let mut c: usize = 0;
        while c < WIDTH
            invariant
                self.wf(),
                old(self).wf(),
                at < n0,
                n0 == old(self).nodes@.len(),
                c <= WIDTH,
                depth > 0,
                old(self).nodes@[at as int].result == Result::Ongoing,
                self.root_index == old(self).root_index,
                n0 <= self.nodes@.len(),
                forall|i: int|
                    0 <= i < n0 ==> same_state(#[trigger] self.nodes@[i], old(self).nodes@[i]),
                forall|i: int|
                    0 <= i < n0 && i != at ==> (#[trigger] self.nodes@[i]).children@ == old(self).nodes@[i].children@,
                found_by(self.nodes@, n0 as int, at as int, depth as int, ply, par, slot),
                forall|i: int| n0 <= i < self.nodes@.len() && par[i] == at ==> #[trigger] slot[i] < c,
                forall|c2: int|
                    0 <= c2 < c ==> (#[trigger] self.nodes@[at as int].children@[c2] is None
                        <==> is_full(self.nodes@[at as int].board@, c2)),
            decreases WIDTH - c,
        {
            let ghost before = self.nodes@;
            assert(self.nodes@[at as int].wf());
            match self.nodes[at].from_turn(c) {
                None => {
                    self.set_child(at, c, None);
                    proof {
                        self.lemma_relink(before, at as int, c as int);
                        assert forall|i: int| n0 <= i < self.nodes@.len() implies #[trigger] found_at(
                            self.nodes@,
                            n0 as int,
                            at as int,
                            depth as int,
                            ply,
                            par,
                            slot,
                            i,
                        ) by {
                            assert(found_at(before, n0 as int, at as int, depth as int, ply, par, slot, i));
                            if par[i] != at {
                                assert(self.nodes@[par[i]] == before[par[i]]);
                            } else {
                                assert(slot[i] < c);
                            }
                            assert(self.nodes@[i] == before[i]);
                        }
                    }
                },
                Some(mut child) => {
                    let canonical = child.board.canonical();
                    let key = canonical.code();
                    proof {
                        lemma_canon_valid(child.board@);
                        lemma_code_fits(canon(child.board@));
                    }
                    match self.table.get(&key) {
                        Some(j) => {
                            let j = *j;
                            proof {
                                let jn = self.nodes@[j as int];
                                assert(self.nodes@[j as int].wf());
                                lemma_code_fits(canon(jn.board@));
                                lemma_canon_code(jn.board@, child.board@);
                                let an = self.nodes@[at as int];
                                assert(self.nodes@[0].wf());
                                lemma_link_pieces(an, jn, c as int);
                                lemma_step_parity(self.nodes@[0], an, jn);
                            }
                            self.set_child(at, c, Some(StateIndex(j)));
                            proof {
                                self.lemma_relink(before, at as int, c as int);
                        assert forall|i: int| n0 <= i < self.nodes@.len() implies #[trigger] found_at(
                            self.nodes@,
                            n0 as int,
                            at as int,
                            depth as int,
                            ply,
                            par,
                            slot,
                            i,
                        ) by {
                            assert(found_at(before, n0 as int, at as int, depth as int, ply, par, slot, i));
                            if par[i] != at {
                                assert(self.nodes@[par[i]] == before[par[i]]);
                            } else {
                                assert(slot[i] < c);
                            }
                            assert(self.nodes@[i] == before[i]);
                        }
                            }
                        },
                        None => {
                            let new_idx = self.nodes.len();
                            let ongoing = child.result == Result::Ongoing;
                            child.index = Some(StateIndex(new_idx));
                            let ghost old_table = self.table@;
                            assert(self.table@.dom().finite());
                            self.nodes.push(child);
                            self.table.insert(key, new_idx);
                            proof {
                                assert(self.nodes@.drop_last() =~= before);
                                let an = before[at as int];
                                assert(before[0].wf());
                                crate::board::lemma_played(an.board@, c as int, an.turn);
                                lemma_pieces_played(an.board@, c as int, an.turn);
                                lemma_step_parity(before[0], an, self.nodes@.last());
                                self.lemma_pushed(before, old_table, key);
                            }
                            let ghost before2 = self.nodes@;
                            let ghost k = new_idx as int;
                            self.set_child(at, c, Some(StateIndex(new_idx)));
                            let ghost oply = ply;
                            let ghost opar = par;
                            let ghost oslot = slot;
                            proof {
                                self.lemma_relink(before2, at as int, c as int);
                                ply = ply.push(1);
                                par = par.push(at as int);
                                slot = slot.push(c as int);
                                assert forall|i: int| n0 <= i < k implies #[trigger] found_at(
                                    self.nodes@,
                                    n0 as int,
                                    at as int,
                                    depth as int,
                                    ply,
                                    par,
                                    slot,
                                    i,
                                ) by {
                                    assert(found_at(before, n0 as int, at as int, depth as int, oply, opar, oslot, i));
                                    assert(before2[i] == before[i]);
                                    assert(before2[par[i]] == before[par[i]]);
                                    if par[i] != at {
                                        assert(self.nodes@[par[i]] == before2[par[i]]);
                                    } else {
                                        assert(slot[i] < c);
                                    }
                                    assert(self.nodes@[i] == before2[i]);
                                }
                                assert forall|i: int| n0 <= i < self.nodes@.len() && par[i] == at implies #[trigger] slot[i] < c + 1 by {
                                    if i < k {
                                        assert(oslot[i] < c);
                                    }
                                }
                                if !(ongoing && depth > 1) {
                                    assert(self.nodes@[k].children@ == no_children());
                                    assert(found_at(self.nodes@, n0 as int, at as int, depth as int, ply, par, slot, k));
                                }
                            }
                            if ongoing && depth > 1 {
                                let ghost mid = self.nodes@;
                                let w2 = self.expand(new_idx, depth - 1);
                                proof {
                                    let ply2 = w2@.0;
                                    let par2 = w2@.1;
                                    let slot2 = w2@.2;
                                    let len = self.nodes@.len();
                                    let plym = Seq::new(len, |j: int| if j <= k { ply[j] } else { 1 + ply2[j] });
                                    let parm = Seq::new(len, |j: int| if j <= k { par[j] } else { par2[j] });
                                    let slotm = Seq::new(len, |j: int| if j <= k { slot[j] } else { slot2[j] });
                                    assert forall|i: int| n0 <= i < len implies #[trigger] found_at(
                                        self.nodes@,
                                        n0 as int,
                                        at as int,
                                        depth as int,
                                        plym,
                                        parm,
                                        slotm,
                                        i,
                                    ) by {
                                        if i < k {
                                            assert(found_at(mid, n0 as int, at as int, depth as int, ply, par, slot, i));
                                            assert(self.nodes@[i].children@ == mid[i].children@);
                                            assert(same_state(self.nodes@[i], mid[i]));
                                            assert(self.nodes@[par[i]].children@ == mid[par[i]].children@);
                                        } else if i == k {
                                            assert(self.nodes@[at as int].children@ == mid[at as int].children@);
                                            assert(same_state(self.nodes@[k], mid[k]));
                                        } else {
                                            assert(found_at(self.nodes@, k + 1, k, depth - 1, ply2, par2, slot2, i));
                                        }
                                    }
                                    assert forall|i: int| n0 <= i < len && parm[i] == at implies #[trigger] slotm[i] < c + 1 by {
                                        if i > k {
                                            assert(found_at(self.nodes@, k + 1, k, depth - 1, ply2, par2, slot2, i));
                                        }
                                    }
                                    ply = plym;
                                    par = parm;
                                    slot = slotm;
                                }
                            }
                        },
                    }
                },
            }
            c += 1;
        }
        Ghost((ply, par, slot))
    }

    /// Explores from the root for up to `depth` plies; see `explore_further`.
    pub fn explore(&mut self, depth: u32)
        requires
            old(self).wf(),
        ensures
            final(self).wf(),
            final(self).root_index == old(self).root_index,
            old(self).nodes@.len() <= final(self).nodes@.len(),
            forall|i: int|
                0 <= i < old(self).nodes@.len() ==> same_state(
                    #[trigger] final(self).nodes@[i],
                    old(self).nodes@[i],
                ),
            old(self).explored_shape() ==> final(self).explored_shape(),
            depth > 0 && old(self).nodes@[old(self).root_index.0 as int].result == Result::Ongoing
                ==> expanded(final(self).nodes@[old(self).root_index.0 as int]),
            depth == 0 || old(self).nodes@[old(self).root_index.0 as int].result != Result::Ongoing
                ==> final(self).nodes@ == old(self).nodes@,
            explored_within(
                final(self).nodes@,
                old(self).nodes@.len() as int,
                old(self).root_index.0 as int,
                depth as int,
            ),
    {
        let root = self.root_index;
        self.explore_further(depth, root);
    }

    /// Expands position `at` for up to `depth` plies. A position that is won, drawn, or
    /// reached with no plies left is not expanded. Otherwise each column in order is tried:
    /// a full column leaves its slot empty; a board whose canonical form is already in the
    /// map links the position found there and is not expanded again, whatever depth is left;
    /// a new board becomes a new position in the arena and the map, is linked, and is
    /// expanded with one ply less.
    pub fn explore_further(&mut self, depth: u32, at: StateIndex)
        requires
            old(self).wf(),
            at.0 < old(self).nodes@.len(),
        ensures
            final(self).wf(),
            final(self).root_index == old(self).root_index,
            old(self).nodes@.len() <= final(self).nodes@.len(),
            forall|i: int|
                0 <= i < old(self).nodes@.len() ==> same_state(
                    #[trigger] final(self).nodes@[i],
                    old(self).nodes@[i],
                ),
            forall|i: int|
                0 <= i < old(self).nodes@.len() && i != at.0 ==> (#[trigger] final(self).nodes@[i]).children@ == old(self).nodes@[i].children@,
            old(self).explored_shape() ==> final(self).explored_shape(),
            depth == 0 || old(self).nodes@[at.0 as int].result != Result::Ongoing ==> final(self).nodes@ == old(self).nodes@,
            depth > 0 && old(self).nodes@[at.0 as int].result == Result::Ongoing ==> expanded(
                final(self).nodes@[at.0 as int],
            ),
            explored_within(final(self).nodes@, old(self).nodes@.len() as int, at.0 as int, depth as int),
    {
        let w = self.expand(at.0, depth);
        proof {
            let n0 = old(self).nodes@.len() as int;
            let ns = self.nodes@;
            let ply = w@.0;
            let par = w@.1;
            let slot = w@.2;
            assert forall|i: int| n0 <= i < ns.len() implies #[trigger] reached_within(
                ns,
                n0,
                at.0 as int,
                depth as int,
                ply,
                i,
            ) by {
                assert(found_at(ns, n0, at.0 as int, depth as int, ply, par, slot, i));
                let p = par[i];
                assert(ns[p].children@[slot[i]] == Some(StateIndex(i as usize)));
                assert(links(ns, p, i));
            }
            assert(explored_within(ns, n0, at.0 as int, depth as int));
            if old(self).explored_shape() {
                assert forall|i: int| 0 <= i < self.nodes@.len() implies unexpanded(
                    #[trigger] self.nodes@[i],
                ) || expanded(self.nodes@[i]) by {
                    if i < old(self).nodes@.len() && i != at.0 {
                        assert(unexpanded(old(self).nodes@[i]) || expanded(old(self).nodes@[i]));
                        assert(self.nodes@[i].children@ == old(self).nodes@[i].children@);
                    } else if i >= old(self).nodes@.len() {
                        assert(found_at(self.nodes@, n0, at.0 as int, depth as int, ply, par, slot, i));
                    }
                }
            }
        }
    }

    /// The board of position `idx`.
    pub fn get_board(&self, idx: &StateIndex) -> (r: &Board)
        requires
            idx.0 < self.nodes@.len(),
        ensures
            *r == self.nodes@[idx.0 as int].board,
    {
        &self.nodes[idx.0].board
    }

    /// Position `idx`.
    pub fn get_node(&self, idx: &StateIndex) -> (r: &GameNode)
        requires
            idx.0 < self.nodes@.len(),
        ensures
            *r == self.nodes@[idx.0 as int],
    {
        &self.nodes[idx.0]
    }

    /// Number of children of position `idx`.
    pub fn num_children(&self, idx: &StateIndex) -> (r: usize)
        requires
            idx.0 < self.nodes@.len(),
        ensures
            r == count_some(self.nodes@[idx.0 as int].children@),
    {
        self.nodes[idx.0].count_children()
    }

    /// All child slots of position `idx`, one per column, empty or not.
    pub fn iter_children(&self, idx: &StateIndex) -> (r: Vec<Option<StateIndex>>)
        requires
            idx.0 < self.nodes@.len(),
        ensures
            r@ == self.nodes@[idx.0 as int].children@,
    {
        let slots = &self.nodes[idx.0].children;
        let mut r: Vec<Option<StateIndex>> = Vec::new();
        let mut i: usize = 0;
        while i < slots.len()
            invariant
                i <= slots@.len(),
                r@ == slots@.subrange(0, i as int),
            decreases slots@.len() - i,
        {
            r.push(slots[i]);
            i += 1;
            proof {
                assert(r@ =~= slots@.subrange(0, i as int));
            }
        }
        proof {
            assert(r@ =~= slots@);
        }
        r
    }

    /// The children of position `idx`, in column order, without the empty slots.
    pub fn iter_ok_children(&self, idx: &StateIndex) -> (r: Vec<StateIndex>)
        requires
            idx.0 < self.nodes@.len(),
        ensures
            r@ == somes(self.nodes@[idx.0 as int].children@),
    {
        let slots = &self.nodes[idx.0].children;
        let mut r: Vec<StateIndex> = Vec::new();
        let mut i: usize = 0;
        while i < slots.len()
            invariant
                i <= slots@.len(),
                r@ == somes(slots@.subrange(0, i as int)),
            decreases slots@.len() - i,
        {
            proof {
                assert(slots@.subrange(0, i as int + 1).drop_last() =~= slots@.subrange(0, i as int));
            }
            if let Some(h) = slots[i] {
                r.push(h);
            }
            i += 1;
        }
        proof {
            assert(slots@.subrange(0, i as int) =~= slots@);
        }
        r
    }

    /// After `set_child` on a well-formed tree, with a sound new link, the tree is well formed.
    proof fn lemma_relink(&self, before: Seq<GameNode>, at: int, c: int)
        requires
            0 <= at < before.len(),
            0 <= c < WIDTH,
            self.nodes@.len() == before.len(),
            forall|i: int| 0 <= i < before.len() && i != at ==> self.nodes@[i] == before[i],
            same_state(self.nodes@[at], before[at]),
            self.nodes@[at].children@ == before[at].children@.update(c, self.nodes@[at].children@[c]),
            before.len() >= 1,
            self.root_index.0 < before.len(),
            forall|i: int|
                0 <= i < before.len() ==> (#[trigger] before[i]).wf() && before[i].index == Some(
                    StateIndex(i as usize),
                ),
            forall|i: int| 0 <= i < before.len() ==> turn_parity(#[trigger] before[i], before[0]),
            forall|i: int, c2: int| 0 <= i < before.len() && 0 <= c2 < WIDTH ==> #[trigger] edge_ok(before, i, c2),
            table_ok(before, self.table@),
            edge_ok(self.nodes@, at, c),
        ensures
            self.wf(),
    {
        let ns = self.nodes@;
        assert forall|i: int| 0 <= i < ns.len() implies (#[trigger] ns[i]).wf() && ns[i].index
            == Some(StateIndex(i as usize)) by {
            assert(before[i].wf());
        }
        assert(ns[0].board@ == before[0].board@ && ns[0].turn == before[0].turn);
        assert forall|i: int| 0 <= i < ns.len() implies turn_parity(#[trigger] ns[i], ns[0]) by {
            assert(turn_parity(before[i], before[0]));
        }
        assert forall|i: int, c2: int| 0 <= i < ns.len() && 0 <= c2 < WIDTH implies #[trigger] edge_ok(
            ns,
            i,
            c2,
        ) by {
            assert(edge_ok(before, i, c2));
            if let Some(h) = ns[i].children@[c2] {
                assert(ns[h.0 as int].board@ == before[h.0 as int].board@);
                assert(ns[h.0 as int].turn == before[h.0 as int].turn);
            }
        }
        assert forall|i: int| 0 <= i < ns.len() implies self.table@.contains_key(
            node_key(#[trigger] ns[i]),
        ) && self.table@[node_key(ns[i])] == i by {
            assert(node_key(ns[i]) == node_key(before[i]));
        }
        assert forall|k: u128| #[trigger] self.table@.contains_key(k) implies self.table@[k] < ns.len()
            && node_key(ns[self.table@[k] as int]) == k by {
            assert(node_key(ns[self.table@[k] as int]) == node_key(before[self.table@[k] as int]));
        }
    }

    /// After pushing a fresh position and mapping its new key to it, the tree is well formed.
    proof fn lemma_pushed(&self, before: Seq<GameNode>, old_table: Map<u128, usize>, key: u128)
        requires
            self.nodes@.len() == before.len() + 1,
            self.nodes@.drop_last() == before,
            1 <= before.len() <= usize::MAX,
            self.root_index.0 < before.len(),
            forall|i: int|
                0 <= i < before.len() ==> (#[trigger] before[i]).wf() && before[i].index == Some(
                    StateIndex(i as usize),
                ),
            forall|i: int, c2: int| 0 <= i < before.len() && 0 <= c2 < WIDTH ==> #[trigger] edge_ok(before, i, c2),
            forall|i: int| 0 <= i < before.len() ==> turn_parity(#[trigger] before[i], before[0]),
            turn_parity(self.nodes@.last(), before[0]),
            table_ok(before, old_table),
            !old_table.contains_key(key),
            old_table.dom().finite(),
            self.table@ == old_table.insert(key, before.len() as usize),
            self.nodes@.last().wf(),
            self.nodes@.last().index == Some(StateIndex(before.len() as usize)),
            self.nodes@.last().children@ == no_children(),
            node_key(self.nodes@.last()) == key,
        ensures
            self.wf(),
    {
        let ns = self.nodes@;
        let n = before.len();
        assert forall|i: int| 0 <= i < n implies ns[i] == before[i] by {
            assert(ns.drop_last()[i] == ns[i]);
        }
        assert forall|i: int| 0 <= i < ns.len() implies (#[trigger] ns[i]).wf() && ns[i].index
            == Some(StateIndex(i as usize)) by {
            if i < n {
                assert(before[i].wf());
            }
        }
        assert forall|i: int| 0 <= i < ns.len() implies turn_parity(#[trigger] ns[i], ns[0]) by {
            if i < n {
                assert(turn_parity(before[i], before[0]));
            }
        }
        assert forall|i: int, c2: int| 0 <= i < ns.len() && 0 <= c2 < WIDTH implies #[trigger] edge_ok(
            ns,
            i,
            c2,
        ) by {
            if i < n {
                assert(edge_ok(before, i, c2));
            } else {
                assert(ns[i].children@[c2] is None);
            }
        }
        assert forall|i: int| 0 <= i < ns.len() implies self.table@.contains_key(
            node_key(#[trigger] ns[i]),
        ) && self.table@[node_key(ns[i])] == i by {
            if i < n {
                assert(ns[i] == before[i]);
                assert(old_table.contains_key(node_key(before[i])));
            } else {
                assert(i == n);
            }
        }
        assert forall|k: u128| #[trigger] self.table@.contains_key(k) implies self.table@[k] < ns.len()
            && node_key(ns[self.table@[k] as int]) == k by {
            if k != key {
                assert(old_table.contains_key(k));
            }
        }
        assert(self.table@.dom() =~= old_table.dom().insert(key));
    }
}

} // verus!
