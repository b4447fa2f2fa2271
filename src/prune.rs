//! Reachability over the arena, the two marking passes (positions that lead to a win, and
//! positions that lead to a given board), and compaction of the arena to a keep-mask.
use vstd::prelude::*;

use crate::board::{
    canon, cannot_lead_to, col_prefix, prefix_board_not_rejected, lemma_cannot_lead_differs, lemma_cannot_lead_step, lemma_canon_code,
    lemma_code_fits, lemma_canon_valid, lemma_pieces_bound, lemma_pieces_canon,
    lemma_pieces_played, lemma_played, lemma_same_canon, pieces, played, Board, Grid, HEIGHT,
    WIDTH,
};
use std::collections::HashMap;

use crate::board::{empty_board, empty_grid, Player};
use crate::node::{count_some, no_children, GameNode, StateIndex};
use crate::tree::{edge_ok, node_key, table_ok, turn_parity, Tree};

verus! {

/// Position `j` stands in one of the child slots of position `i`.
pub open spec fn is_child(ns: Seq<GameNode>, i: int, j: int) -> bool {
    exists|c: int| 0 <= c < WIDTH && #[trigger] ns[i].children@[c] == Some(StateIndex(j as usize))
}

/// `p` is a non-empty sequence of handles of the arena, each a child of the one before.
pub open spec fn is_path(ns: Seq<GameNode>, p: Seq<int>) -> bool {
    &&& p.len() >= 1
    &&& forall|k: int| 0 <= k < p.len() ==> 0 <= #[trigger] p[k] < ns.len()
    &&& forall|k: int| 0 <= k < p.len() - 1 ==> #[trigger] is_child(ns, p[k], p[k + 1])
}

/// Position `j` is `i` or a descendant of `i`.
pub open spec fn reaches(ns: Seq<GameNode>, i: int, j: int) -> bool {
    exists|p: Seq<int>| #[trigger] is_path(ns, p) && p[0] == i && p.last() == j
}

/// Some position marked in `hit` is `i` or a descendant of `i`.
pub open spec fn hit_below(ns: Seq<GameNode>, i: int, hit: Seq<bool>) -> bool {
    exists|j: int| #[trigger] reaches(ns, i, j) && 0 <= j < hit.len() && hit[j]
}

/// One flag per position: is it won by either player.
pub open spec fn win_flags(ns: Seq<GameNode>) -> Seq<bool> {
    Seq::new(ns.len(), |j: int| ns[j].result is Win)
}

/// One flag per position: is its board, up to mirroring, the board `t`.
pub open spec fn target_flags(ns: Seq<GameNode>, t: Grid) -> Seq<bool> {
    Seq::new(ns.len(), |j: int| canon(ns[j].board@) == canon(t))
}

/// Some won position is `i` or a descendant of `i`.
pub open spec fn wins_below(ns: Seq<GameNode>, i: int) -> bool {
    hit_below(ns, i, win_flags(ns))
}

proof fn lemma_reach_refl(ns: Seq<GameNode>, i: int)
    requires
        0 <= i < ns.len(),
    ensures
        reaches(ns, i, i),
{
    let p = seq![i];
    assert(is_path(ns, p));
}

proof fn lemma_reach_step(ns: Seq<GameNode>, i: int, j: int, k: int)
    requires
        reaches(ns, i, j),
        is_child(ns, j, k),
        0 <= k < ns.len(),
    ensures
        reaches(ns, i, k),
{
    let p = choose|p: Seq<int>| #[trigger] is_path(ns, p) && p[0] == i && p.last() == j;
    let q = p.push(k);
    assert forall|m: int| 0 <= m < q.len() - 1 implies #[trigger] is_child(ns, q[m], q[m + 1]) by {
        if m < p.len() - 1 {
            assert(q[m] == p[m] && q[m + 1] == p[m + 1]);
        }
    }
    assert forall|m: int| 0 <= m < q.len() implies 0 <= #[trigger] q[m] < ns.len() by {
        if m < p.len() {
            assert(q[m] == p[m]);
        }
    }
    assert(is_path(ns, q));
}

proof fn lemma_reach_prepend(ns: Seq<GameNode>, i: int, j: int, k: int)
    requires
        0 <= i < ns.len(),
        is_child(ns, i, j),
        reaches(ns, j, k),
    ensures
        reaches(ns, i, k),
{
    let p = choose|p: Seq<int>| #[trigger] is_path(ns, p) && p[0] == j && p.last() == k;
    let q = seq![i] + p;
    assert forall|m: int| 0 <= m < q.len() - 1 implies #[trigger] is_child(ns, q[m], q[m + 1]) by {
        if m > 0 {
            let k = m - 1;
            assert(is_child(ns, p[k], p[k + 1]));
            assert(q[m] == p[k] && q[m + 1] == p[k + 1]);
        }
    }
    assert forall|m: int| 0 <= m < q.len() implies 0 <= #[trigger] q[m] < ns.len() by {
        if m > 0 {
            assert(q[m] == p[m - 1]);
        }
    }
    assert(is_path(ns, q));
}

/// A descendant of `i` other than `i` is reached through one of its children.
proof fn lemma_reach_split(ns: Seq<GameNode>, i: int, k: int)
    requires
        reaches(ns, i, k),
    ensures
        0 <= i < ns.len(),
        0 <= k < ns.len(),
        k == i || exists|j: int| #[trigger] is_child(ns, i, j) && 0 <= j < ns.len() && reaches(ns, j, k),
{
    let p = choose|p: Seq<int>| #[trigger] is_path(ns, p) && p[0] == i && p.last() == k;
    assert(0 <= p[0] < ns.len());
    assert(0 <= p[p.len() - 1] < ns.len());
    if p.len() > 1 {
        let q = p.drop_first();
        assert forall|m: int| 0 <= m < q.len() - 1 implies #[trigger] is_child(ns, q[m], q[m + 1]) by {
            let k = m + 1;
            assert(is_child(ns, p[k], p[k + 1]));
        }
        assert forall|m: int| 0 <= m < q.len() implies 0 <= #[trigger] q[m] < ns.len() by {
            assert(q[m] == p[m + 1]);
        }
        assert(is_path(ns, q));
        let z: int = 0;
        assert(is_child(ns, p[z], p[z + 1]));
        assert(reaches(ns, p[1], k));
    }
}

/// A set of positions that holds `p[0]` and every child of each of its members holds the
/// last position of the path `p`.
proof fn lemma_closed_path(ns: Seq<GameNode>, r: Seq<bool>, p: Seq<int>)
    requires
        is_path(ns, p),
        r.len() == ns.len(),
        r[p[0]],
        forall|u: int, j: int| 0 <= u < ns.len() && r[u] && #[trigger] is_child(ns, u, j) && 0 <= j < ns.len() ==> r[j],
    ensures
        r[p.last()],
    decreases p.len(),
{
    if p.len() > 1 {
        let q = p.drop_last();
        assert forall|m: int| 0 <= m < q.len() - 1 implies #[trigger] is_child(ns, q[m], q[m + 1]) by {
            assert(is_child(ns, p[m], p[m + 1]));
        }
        assert forall|m: int| 0 <= m < q.len() implies 0 <= #[trigger] q[m] < ns.len() by {
            assert(q[m] == p[m]);
        }
        lemma_closed_path(ns, r, q);
        let k = p.len() - 2;
        assert(is_child(ns, p[k], p[k + 1]));
        assert(0 <= p[p.len() - 1] < ns.len());
    }
}

/// Slot `c` of position `i` holds a child whose flag is set.
pub open spec fn child_hits(ns: Seq<GameNode>, i: int, c: int, flags: Seq<bool>) -> bool {
    match ns[i].children@[c] {
        Some(h) => flags[h.0 as int],
        None => false,
    }
}

/// The positions kept by the win marking from `at`: descendants of `at` (itself included)
/// that lead to a won position.
pub open spec fn win_marked(ns: Seq<GameNode>, at: int, i: int) -> bool {
    reaches(ns, at, i) && wins_below(ns, i)
}

/// The positions kept by the target marking from `at`: descendants of `at` (itself included)
/// that lead to the board `t` up to mirroring.
pub open spec fn target_marked(ns: Seq<GameNode>, at: int, i: int, t: Grid) -> bool {
    reaches(ns, at, i) && hit_below(ns, i, target_flags(ns, t))
}

/// A position leads to a marked one when it is marked itself or one of its children leads to
/// one.
proof fn lemma_below_step(ns: Seq<GameNode>, i: int, hit: Seq<bool>, below: Seq<bool>)
    requires
        0 <= i < ns.len() <= usize::MAX,
        hit.len() == ns.len(),
        below.len() == ns.len(),
        forall|c: int|
            0 <= c < WIDTH ==> match #[trigger] ns[i].children@[c] {
                Some(h) => 0 <= h.0 < ns.len() && below[h.0 as int] == hit_below(ns, h.0 as int, hit),
                None => true,
            },
    ensures
        hit_below(ns, i, hit) == (hit[i] || exists|c: int| 0 <= c < WIDTH && #[trigger] child_hits(ns, i, c, below)),
{
    if hit_below(ns, i, hit) {
        let j = choose|j: int| #[trigger] reaches(ns, i, j) && 0 <= j < hit.len() && hit[j];
        lemma_reach_split(ns, i, j);
        if j != i {
            let k = choose|k: int| #[trigger] is_child(ns, i, k) && 0 <= k < ns.len() && reaches(ns, k, j);
            let c = choose|c: int| 0 <= c < WIDTH && #[trigger] ns[i].children@[c] == Some(StateIndex(k as usize));
            assert(hit_below(ns, k, hit));
            assert(ns[i].children@[c]->Some_0.0 as int == k);
            assert(child_hits(ns, i, c, below));
        }
    }
    if hit[i] {
        lemma_reach_refl(ns, i);
    }
    if exists|c: int| 0 <= c < WIDTH && #[trigger] child_hits(ns, i, c, below) {
        let c = choose|c: int| 0 <= c < WIDTH && #[trigger] child_hits(ns, i, c, below);
        let h = ns[i].children@[c]->Some_0.0 as int;
        assert(hit_below(ns, h, hit));
        let j = choose|j: int| #[trigger] reaches(ns, h, j) && 0 <= j < hit.len() && hit[j];
        assert(is_child(ns, i, h));
        lemma_reach_prepend(ns, i, h, j);
    }
}

/// The win marking never keeps a position from which no won position can be reached.
pub proof fn no_win_below_never_kept(ns: Seq<GameNode>, at: int, i: int)
    requires
        forall|j: int| #[trigger] reaches(ns, i, j) ==> !(ns[j].result is Win),
    ensures
        !win_marked(ns, at, i),
{
    if wins_below(ns, i) {
        let j = choose|j: int| #[trigger] reaches(ns, i, j) && 0 <= j < win_flags(ns).len() && win_flags(ns)[j];
        assert(win_flags(ns)[j] == ns[j].result is Win);
    }
}

/// Number of child links out of the positions among the first `n` that `at` reaches.
pub open spec fn reach_edges(ns: Seq<GameNode>, at: int, n: int) -> int
    decreases n,
{
    if n <= 0 {
        0
    } else {
        reach_edges(ns, at, n - 1) + if reaches(ns, at, n - 1) {
            count_some(ns[n - 1].children@) as int
        } else {
            0
        }
    }
}

/// A descendant `i` of `at` whose subtree holds the target board is kept by the target
/// marking; when each column of `i` is the bottom of the target's same column, the early
/// rejection does not apply to it either.
pub proof fn target_in_subtree_kept(ns: Seq<GameNode>, at: int, i: int, j: int, t: Grid)
    requires
        reaches(ns, at, i),
        reaches(ns, i, j),
        canon(ns[j].board@) == canon(t),
    ensures
        target_marked(ns, at, i, t),
        (forall|c: int| 0 <= c < WIDTH ==> #[trigger] col_prefix(ns[i].board@[c], t[c])) ==> !cannot_lead_to(
            ns[i].board@,
            t,
        ),
{
    lemma_reach_split(ns, i, j);
    assert(target_flags(ns, t)[j]);
    assert(hit_below(ns, i, target_flags(ns, t)));
    if forall|c: int| 0 <= c < WIDTH ==> #[trigger] col_prefix(ns[i].board@[c], t[c]) {
        prefix_board_not_rejected(ns[i].board@, t);
    }
}

/// Number of set flags among the first `n`: the new handle of a kept slot `n`.
pub open spec fn count_kept(keep: Seq<bool>, n: int) -> int
    decreases n,
{
    if n <= 0 {
        0
    } else {
        count_kept(keep, n - 1) + if keep[n - 1] {
            1int
        } else {
            0int
        }
    }
}

/// A child slot after compaction: a kept child gets its new handle, any other slot is empty.
pub open spec fn remap_slot(s: Option<StateIndex>, keep: Seq<bool>) -> Option<StateIndex> {
    match s {
        Some(h) => if 0 <= h.0 < keep.len() && keep[h.0 as int] {
            Some(StateIndex(count_kept(keep, h.0 as int) as usize))
        } else {
            None
        },
        None => None,
    }
}

/// The child slots of a position after compaction.
pub open spec fn remap_children(s: Seq<Option<StateIndex>>, keep: Seq<bool>) -> Seq<Option<StateIndex>> {
    Seq::new(s.len(), |c: int| remap_slot(s[c], keep))
}

/// `k` is the new handle of some kept slot.
pub open spec fn handle_of_kept(keep: Seq<bool>, k: int) -> bool {
    exists|i: int| 0 <= i < keep.len() && keep[i] && #[trigger] count_kept(keep, i) == k
}

/// The position `a` is position `b` moved to handle `k`, with its children remapped.
pub open spec fn moved_to(a: GameNode, b: GameNode, k: int, keep: Seq<bool>) -> bool {
    &&& a.board@ == b.board@
    &&& a.turn == b.turn
    &&& a.result == b.result
    &&& a.index == Some(StateIndex(k as usize))
    &&& a.children@ == remap_children(b.children@, keep)
}

proof fn lemma_count_kept_bound(keep: Seq<bool>, n: int)
    requires
        0 <= n <= keep.len(),
    ensures
        0 <= count_kept(keep, n) <= n,
    decreases n,
{
    if n > 0 {
        lemma_count_kept_bound(keep, n - 1);
    }
}

proof fn lemma_kept_before(keep: Seq<bool>, i: int, j: int)
    requires
        0 <= i < j <= keep.len(),
        keep[i],
    ensures
        count_kept(keep, i) < count_kept(keep, j),
    decreases j - i,
{
    if j > i + 1 {
        lemma_kept_before(keep, i, j - 1);
    }
}

/// Compaction keeps the order of the kept slots: a kept slot before another gets a smaller
/// new handle, and every kept slot gets a handle inside the compacted arena.
pub proof fn compaction_keeps_order(keep: Seq<bool>, i: int, j: int)
    requires
        0 <= i < j <= keep.len(),
        keep[i],
    ensures
        count_kept(keep, i) < count_kept(keep, j),
        count_kept(keep, i) < count_kept(keep, keep.len() as int),
{
    lemma_kept_before(keep, i, j);
    lemma_kept_before(keep, i, keep.len() as int);
}

impl Tree {
    /// A child holds one piece more than its parent.
    proof fn lemma_child_pieces(&self, i: int, c: int)
        requires
            self.wf(),
            0 <= i < self.nodes@.len(),
            0 <= c < WIDTH,
            self.nodes@[i].children@[c] is Some,
        ensures
            ({
                let h = self.nodes@[i].children@[c]->Some_0.0 as int;
                &&& 0 <= h < self.nodes@.len()
                &&& pieces(self.nodes@[h].board@) == pieces(self.nodes@[i].board@) + 1
            }),
    {
        let ns = self.nodes@;
        let h = ns[i].children@[c]->Some_0.0 as int;
        assert(edge_ok(ns, i, c));
        assert(ns[i].wf());
        assert(ns[h].wf());
        lemma_played(ns[i].board@, c, ns[i].turn);
        lemma_pieces_played(ns[i].board@, c, ns[i].turn);
        lemma_pieces_canon(ns[h].board@, crate::board::played(ns[i].board@, c, ns[i].turn));
    }

    fn piece_counts(&self) -> (r: Vec<usize>)
        requires
            self.wf(),
        ensures
            r@.len() == self.nodes@.len(),
            forall|i: int|
                0 <= i < self.nodes@.len() ==> #[trigger] r@[i] == pieces(self.nodes@[i].board@)
                    && r@[i] <= WIDTH * HEIGHT,
    {
        let mut r: Vec<usize> = Vec::new();
        let mut i: usize = 0;
        while i < self.nodes.len()
            invariant
                self.wf(),
                i <= self.nodes@.len(),
                r@.len() == i,
                forall|j: int|
                    0 <= j < i ==> #[trigger] r@[j] == pieces(self.nodes@[j].board@) && r@[j] <= WIDTH
                        * HEIGHT,
            decreases self.nodes@.len() - i,
        {
            assert(self.nodes@[i as int].wf());
            proof {
                lemma_pieces_bound(self.nodes@[i as int].board@);
            }
            r.push(self.nodes[i].board.pieces_count());
            i += 1;
        }
        r
    }

    /// One flag per position: is it `at` or a descendant of `at`. Positions are visited in
    /// order of their number of pieces, so each is handled once.
    fn reach_mask(&self, at: usize, pc: &Vec<usize>) -> (r: Vec<bool>)
        requires
            self.wf(),
            at < self.nodes@.len(),
            pc@.len() == self.nodes@.len(),
            forall|i: int|
                0 <= i < self.nodes@.len() ==> #[trigger] pc@[i] == pieces(self.nodes@[i].board@)
                    && pc@[i] <= WIDTH * HEIGHT,
        ensures
            r@.len() == self.nodes@.len(),
            forall|i: int| 0 <= i < self.nodes@.len() ==> r@[i] == reaches(self.nodes@, at as int, i),
    {
        let ghost ns = self.nodes@;
        let n = self.nodes.len();
        let mut r: Vec<bool> = Vec::new();
        let mut i: usize = 0;
        while i < n
            invariant
                n == ns.len(),
                ns == self.nodes@,
                at < n,
                i <= n,
                r@.len() == i,
                forall|j: int| 0 <= j < i ==> r@[j] == (j == at),
            decreases n - i,
        {
            r.push(i == at);
            i += 1;
        }
        proof {
            lemma_reach_refl(ns, at as int);
        }
        let mut p: usize = 0;
        while p <= WIDTH * HEIGHT
            invariant
                self.wf(),
                n == ns.len(),
                ns == self.nodes@,
                at < n,
                p <= WIDTH * HEIGHT + 1,
                pc@.len() == n,
                forall|i: int| 0 <= i < n ==> #[trigger] pc@[i] == pieces(ns[i].board@) && pc@[i] <= WIDTH * HEIGHT,
                r@.len() == n,
                r@[at as int],
                forall|j: int| 0 <= j < n && r@[j] ==> reaches(ns, at as int, j),
                forall|u: int, j: int|
                    0 <= u < n && r@[u] && pc@[u] < p && #[trigger] is_child(ns, u, j) && 0 <= j < n ==> r@[j],
            decreases WIDTH * HEIGHT + 1 - p,
        {
            let mut i: usize = 0;
            while i < n
                invariant
                    self.wf(),
                    n == ns.len(),
                    ns == self.nodes@,
                    at < n,
                    p <= WIDTH * HEIGHT,
                    i <= n,
                    pc@.len() == n,
                    forall|i: int| 0 <= i < n ==> #[trigger] pc@[i] == pieces(ns[i].board@) && pc@[i] <= WIDTH * HEIGHT,
                    r@.len() == n,
                    r@[at as int],
                    forall|j: int| 0 <= j < n && r@[j] ==> reaches(ns, at as int, j),
                    forall|u: int, j: int|
                        0 <= u < n && r@[u] && (pc@[u] < p || (pc@[u] == p && u < i)) && #[trigger] is_child(ns, u, j) && 0 <= j < n
                            ==> r@[j],
                decreases n - i,
            {
                if pc[i] == p && r[i] {
                    let mut c: usize = 0;
                    while c < WIDTH
                        invariant
                            self.wf(),
                            n == ns.len(),
                            ns == self.nodes@,
                            at < n,
                            i < n,
                            p <= WIDTH * HEIGHT,
                            pc@[i as int] == p,
                            r@[i as int],
                            c <= WIDTH,
                            pc@.len() == n,
                            forall|i: int| 0 <= i < n ==> #[trigger] pc@[i] == pieces(ns[i].board@) && pc@[i] <= WIDTH * HEIGHT,
                            r@.len() == n,
                            r@[at as int],
                            forall|j: int| 0 <= j < n && r@[j] ==> reaches(ns, at as int, j),
                            forall|u: int, j: int|
                                0 <= u < n && r@[u] && (pc@[u] < p || (pc@[u] == p && u < i)) && #[trigger] is_child(ns, u, j) && 0 <= j < n
                                    ==> r@[j],
                            forall|c2: int| 0 <= c2 < c ==> match #[trigger] ns[i as int].children@[c2] {
                                Some(h) => 0 <= h.0 < n && r@[h.0 as int],
                                None => true,
                            },
                        decreases WIDTH - c,
                    {
                        assert(ns[i as int].wf());
                        if let Some(h) = self.nodes[i].children[c] {
                            proof {
                                self.lemma_child_pieces(i as int, c as int);
                                assert(is_child(ns, i as int, h.0 as int));
                                lemma_reach_step(ns, at as int, i as int, h.0 as int);
                            }
                            r.set(h.0, true);
                            assert(r@[h.0 as int]);
                        }
                        c += 1;
                    }
                    proof {
                        assert forall|j: int| #[trigger] is_child(ns, i as int, j) && 0 <= j < n implies r@[j] by {
                            let c2 = choose|c2: int| 0 <= c2 < WIDTH && #[trigger] ns[i as int].children@[c2] == Some(StateIndex(j as usize));
                            assert(ns[i as int].children@[c2] == Some(StateIndex(j as usize)));
                        }
                    }
                }
                i += 1;
            }
            p += 1;
        }
        proof {
            assert forall|j: int| 0 <= j < n implies r@[j] == reaches(ns, at as int, j) by {
                if reaches(ns, at as int, j) {
                    let path = choose|path: Seq<int>| #[trigger] is_path(ns, path) && path[0] == at as int && path.last() == j;
                    lemma_closed_path(ns, r@, path);
                }
            }
        }
        r
    }

    /// Along a path, a position that cannot lead to `t` is followed only by positions that
    /// cannot lead to `t` either.
    proof fn lemma_cannot_lead_path(&self, t: Grid, p: Seq<int>)
        requires
            self.wf(),
            t.len() == WIDTH,
            is_path(self.nodes@, p),
            cannot_lead_to(self.nodes@[p[0]].board@, t),
        ensures
            cannot_lead_to(self.nodes@[p.last()].board@, t),
        decreases p.len(),
    {
        let ns = self.nodes@;
        if p.len() > 1 {
            let q = p.drop_last();
            assert forall|m: int| 0 <= m < q.len() - 1 implies #[trigger] is_child(ns, q[m], q[m + 1]) by {
                assert(is_child(ns, p[m], p[m + 1]));
            }
            assert forall|m: int| 0 <= m < q.len() implies 0 <= #[trigger] q[m] < ns.len() by {
                assert(q[m] == p[m]);
            }
            self.lemma_cannot_lead_path(t, q);
            let k = p.len() - 2;
            assert(is_child(ns, p[k], p[k + 1]));
            let u = p[k];
            let v = p[k + 1];
            let c = choose|c: int| 0 <= c < WIDTH && #[trigger] ns[u].children@[c] == Some(StateIndex(v as usize));
            assert(0 <= u < ns.len());
            assert(0 <= v < ns.len());
            assert(edge_ok(ns, u, c));
            assert(ns[u].wf());
            assert(ns[v].wf());
            lemma_same_canon(played(ns[u].board@, c, ns[u].turn), ns[v].board@);
            lemma_cannot_lead_step(ns[u].board@, t, c, ns[u].turn, ns[v].board@);
        }
    }

    /// One flag per position: is it, or one of its descendants, marked in `hit`. A position
    /// marked in `stop` is known to lead to no marked position and is not looked into.
    /// Positions are handled from the most pieces down, so each is handled once, after its
    /// children.
    fn mark_below(&self, pc: &Vec<usize>, hit: &Vec<bool>, stop: &Vec<bool>) -> (below: Vec<bool>)
        requires
            self.wf(),
            pc@.len() == self.nodes@.len(),
            forall|i: int|
                0 <= i < self.nodes@.len() ==> #[trigger] pc@[i] == pieces(self.nodes@[i].board@)
                    && pc@[i] <= WIDTH * HEIGHT,
            hit@.len() == self.nodes@.len(),
            stop@.len() == self.nodes@.len(),
            forall|i: int| 0 <= i < self.nodes@.len() && #[trigger] stop@[i] ==> !hit_below(self.nodes@, i, hit@),
        ensures
            below@.len() == self.nodes@.len(),
            forall|i: int| 0 <= i < self.nodes@.len() ==> #[trigger] below@[i] == hit_below(self.nodes@, i, hit@),
    {
        let ghost ns = self.nodes@;
        let n = self.nodes.len();
        let mut below: Vec<bool> = Vec::new();
        let mut i: usize = 0;
        while i < n
            invariant
                i <= n,
                below@.len() == i,
            decreases n - i,
        {
            below.push(false);
            i += 1;
        }
        let mut p: usize = WIDTH * HEIGHT + 1;
        while p > 0
            invariant
                self.wf(),
                n == ns.len(),
                ns == self.nodes@,
                p <= WIDTH * HEIGHT + 1,
                pc@.len() == n,
                forall|i: int| 0 <= i < n ==> #[trigger] pc@[i] == pieces(ns[i].board@) && pc@[i] <= WIDTH * HEIGHT,
                hit@.len() == n,
                stop@.len() == n,
                forall|i: int| 0 <= i < n && #[trigger] stop@[i] ==> !hit_below(ns, i, hit@),
                below@.len() == n,
                forall|j: int| 0 <= j < n && pc@[j] >= p ==> #[trigger] below@[j] == hit_below(ns, j, hit@),
            decreases p,
        {
            p -= 1;
            let mut i: usize = 0;
            while i < n
                invariant
                    self.wf(),
                    n == ns.len(),
                    ns == self.nodes@,
                    p <= WIDTH * HEIGHT,
                    i <= n,
                    pc@.len() == n,
                    forall|i: int| 0 <= i < n ==> #[trigger] pc@[i] == pieces(ns[i].board@) && pc@[i] <= WIDTH * HEIGHT,
                    hit@.len() == n,
                    stop@.len() == n,
                    forall|i: int| 0 <= i < n && #[trigger] stop@[i] ==> !hit_below(ns, i, hit@),
                    below@.len() == n,
                    forall|j: int|
                        0 <= j < n && (pc@[j] > p || (pc@[j] == p && j < i)) ==> #[trigger] below@[j] == hit_below(ns, j, hit@),
                decreases n - i,
            {
                if pc[i] == p {
                    let mut b = false;
                    if !stop[i] {
                        b = hit[i];
                        proof {
                            assert forall|c: int| 0 <= c < WIDTH implies match #[trigger] ns[i as int].children@[c] {
                                Some(h) => 0 <= h.0 < ns.len() && below@[h.0 as int] == hit_below(ns, h.0 as int, hit@),
                                None => true,
                            } by {
                                if ns[i as int].children@[c] is Some {
                                    self.lemma_child_pieces(i as int, c as int);
                                }
                            }
                        }
                        let mut c: usize = 0;
                        while c < WIDTH
                            invariant
                                self.wf(),
                                n == ns.len(),
                                ns == self.nodes@,
                                i < n,
                                c <= WIDTH,
                                below@.len() == n,
                                hit@.len() == n,
                                b == (hit@[i as int] || exists|c2: int| 0 <= c2 < c && #[trigger] child_hits(ns, i as int, c2, below@)),
                            decreases WIDTH - c,
                        {
                            assert(ns[i as int].wf());
                            assert(edge_ok(ns, i as int, c as int));
                            if let Some(h) = self.nodes[i].children[c] {
                                if below[h.0] {
                                    assert(child_hits(ns, i as int, c as int, below@));
                                    b = true;
                                }
                            }
                            proof {
                                if b {
                                    if !hit@[i as int] && !child_hits(ns, i as int, c as int, below@) {
                                        let c2 = choose|c2: int| 0 <= c2 < c && #[trigger] child_hits(ns, i as int, c2, below@);
                                        assert(0 <= c2 < c + 1);
                                    }
                                } else {
                                    assert forall|c2: int| 0 <= c2 < c + 1 implies !#[trigger] child_hits(ns, i as int, c2, below@) by {}
                                }
                            }
                            c += 1;
                        }
                        proof {
                            lemma_below_step(ns, i as int, hit@, below@);
                        }
                    }
                    below.set(i, b);
                }
                i += 1;
            }
        }
        below
    }

    /// Marks the descendants of `at` (itself included) that lead to a won position, for either
    /// player. Shared positions are handled once.
    pub fn prune_to_wins(&self, at: StateIndex) -> (keep: Vec<bool>)
        requires
            self.wf(),
            at.0 < self.nodes@.len(),
        ensures
            keep@.len() == self.nodes@.len(),
            forall|i: int|
                0 <= i < self.nodes@.len() ==> #[trigger] keep@[i] == win_marked(self.nodes@, at.0 as int, i),
    {
        let ghost ns = self.nodes@;
        let n = self.nodes.len();
        let pc = self.piece_counts();
        let reach = self.reach_mask(at.0, &pc);
        let mut hit: Vec<bool> = Vec::new();
        let mut stop: Vec<bool> = Vec::new();
        let mut i: usize = 0;
        while i < n
            invariant
                n == ns.len(),
                ns == self.nodes@,
                i <= n,
                hit@.len() == i,
                stop@.len() == i,
                forall|j: int| 0 <= j < i ==> #[trigger] hit@[j] == (ns[j].result is Win),
                forall|j: int| 0 <= j < i ==> !#[trigger] stop@[j],
            decreases n - i,
        {
            hit.push(matches!(self.nodes[i].result, crate::outcome::Result::Win(_)));
            stop.push(false);
            i += 1;
        }
        proof {
            assert(hit@ =~= win_flags(ns));
        }
        let below = self.mark_below(&pc, &hit, &stop);
        let mut keep: Vec<bool> = Vec::new();
        let mut i: usize = 0;
        while i < n
            invariant
                n == ns.len(),
                ns == self.nodes@,
                i <= n,
                reach@.len() == n,
                below@.len() == n,
                forall|j: int| 0 <= j < n ==> reach@[j] == reaches(ns, at.0 as int, j),
                forall|j: int| 0 <= j < n ==> #[trigger] below@[j] == wins_below(ns, j),
                keep@.len() == i,
                forall|j: int| 0 <= j < i ==> #[trigger] keep@[j] == win_marked(ns, at.0 as int, j),
            decreases n - i,
        {
            keep.push(reach[i] && below[i]);
            i += 1;
        }
        keep
    }

    /// Marks the descendants of `at` (itself included) that lead to `target` or to its mirror.
    /// A position none of whose columns can still grow into the same column of the target, or
    /// of the target's mirror, is dropped at once without looking into its descendants: pieces
    /// are only ever added on top of a column, so none of them can be the target.
    pub fn prune_to_target(&self, at: StateIndex, target: &Board) -> (keep: Vec<bool>)
        requires
            self.wf(),
            at.0 < self.nodes@.len(),
            target.wf(),
        ensures
            keep@.len() == self.nodes@.len(),
            forall|i: int|
                0 <= i < self.nodes@.len() ==> #[trigger] keep@[i] == target_marked(
                    self.nodes@,
                    at.0 as int,
                    i,
                    target@,
                ),
    {
        let ghost ns = self.nodes@;
        let ghost t = target@;
        let n = self.nodes.len();
        let pc = self.piece_counts();
        let reach = self.reach_mask(at.0, &pc);
        let mirrored = target.mirrored();
        let target_code = target.canonical().code();
        proof {
            lemma_canon_valid(t);
        }
        let mut hit: Vec<bool> = Vec::new();
        let mut stop: Vec<bool> = Vec::new();
        let mut i: usize = 0;
        while i < n
            invariant
                self.wf(),
                target.wf(),
                t == target@,
                mirrored@ == crate::board::mirror(t),
                mirrored.wf(),
                target_code == crate::board::grid_code(canon(t)),
                n == ns.len(),
                ns == self.nodes@,
                i <= n,
                hit@.len() == i,
                stop@.len() == i,
                forall|j: int| 0 <= j < i ==> #[trigger] hit@[j] == (canon(ns[j].board@) == canon(t)),
                forall|j: int| 0 <= j < i ==> #[trigger] stop@[j] == cannot_lead_to(ns[j].board@, t),
            decreases n - i,
        {
            assert(ns[i as int].wf());
            let board = &self.nodes[i].board;
            let code = board.canonical().code();
            proof {
                if code == target_code {
                    lemma_canon_code(board@, t);
                }
            }
            hit.push(code == target_code);
            stop.push(board.conflicts_with(target) && board.conflicts_with(&mirrored));
            i += 1;
        }
        proof {
            assert(hit@ =~= target_flags(ns, t));
            assert forall|i: int| 0 <= i < n && #[trigger] stop@[i] implies !hit_below(ns, i, hit@) by {
                if hit_below(ns, i, hit@) {
                    let j = choose|j: int| #[trigger] reaches(ns, i, j) && 0 <= j < hit@.len() && hit@[j];
                    let path = choose|path: Seq<int>| #[trigger] is_path(ns, path) && path[0] == i && path.last() == j;
                    self.lemma_cannot_lead_path(t, path);
                    lemma_cannot_lead_differs(ns[j].board@, t);
                }
            }
        }
        let below = self.mark_below(&pc, &hit, &stop);
        let mut keep: Vec<bool> = Vec::new();
        let mut i: usize = 0;
        while i < n
            invariant
                n == ns.len(),
                ns == self.nodes@,
                i <= n,
                reach@.len() == n,
                below@.len() == n,
                forall|j: int| 0 <= j < n ==> reach@[j] == reaches(ns, at.0 as int, j),
                forall|j: int| 0 <= j < n ==> #[trigger] below@[j] == hit_below(ns, j, target_flags(ns, t)),
                keep@.len() == i,
                forall|j: int| 0 <= j < i ==> #[trigger] keep@[j] == target_marked(ns, at.0 as int, j, t),
            decreases n - i,
        {
            keep.push(reach[i] && below[i]);
            i += 1;
        }
        keep
    }

    /// Number of parent-to-child links among the positions reachable from the root: a position
    /// with two parents counts once for each link into it.
    pub fn count_children(&self) -> (r: usize)
        requires
            self.wf(),
            self.nodes@.len() * WIDTH <= usize::MAX,
        ensures
            r == reach_edges(self.nodes@, self.root_index.0 as int, self.nodes@.len() as int),
    {
        let ghost ns = self.nodes@;
        let root = self.root_index.0;
        let pc = self.piece_counts();
        let reach = self.reach_mask(root, &pc);
        let n = self.nodes.len();
        let mut total: usize = 0;
        let mut i: usize = 0;
        while i < n
            invariant
                self.wf(),
                ns == self.nodes@,
                n == ns.len(),
                n * WIDTH <= usize::MAX,
                root == self.root_index.0,
                i <= n,
                reach@.len() == n,
                forall|j: int| 0 <= j < n ==> reach@[j] == reaches(ns, root as int, j),
                total == reach_edges(ns, root as int, i as int),
                total <= i * WIDTH,
            decreases n - i,
        {
            assert(ns[i as int].wf());
            if reach[i] {
                let k = self.nodes[i].count_children();
                proof {
                    assert(i * WIDTH + WIDTH <= n * WIDTH) by (nonlinear_arith)
                        requires
                            i < n,
                    ;
                }
                total = total + k;
            }
            i += 1;
        }
        total
    }

    /// Compacts the arena to the slots set in `keep`. Kept positions keep their relative
    /// order; each takes as handle the number of kept slots before it; child slots that
    /// pointed to a kept position point to its new handle, and the others are emptied; the
    /// map and the root follow. When the root is not kept the tree becomes a single empty
    /// board with `Red` to move.
    pub fn prune_to_win_nodes(&mut self, keep: &[bool])
        requires
            old(self).wf(),
            keep@.len() == old(self).nodes@.len(),
        ensures
            final(self).wf(),
            forall|k: int, c: int|
                0 <= k < final(self).nodes@.len() && 0 <= c < WIDTH && #[trigger] final(self).nodes@[k].children@[c] is Some
                    ==> final(self).nodes@[k].children@[c]->Some_0.0 < final(self).nodes@.len(),
            keep@[old(self).root_index.0 as int] ==> {
                &&& final(self).nodes@.len() == count_kept(keep@, keep@.len() as int)
                &&& final(self).root_index.0 == count_kept(keep@, old(self).root_index.0 as int)
                &&& forall|i: int|
                    0 <= i < keep@.len() && #[trigger] keep@[i] ==> moved_to(
                        final(self).nodes@[count_kept(keep@, i)],
                        old(self).nodes@[i],
                        count_kept(keep@, i),
                        keep@,
                    )
                &&& forall|k: int| 0 <= k < final(self).nodes@.len() ==> #[trigger] handle_of_kept(keep@, k)
            },
            !keep@[old(self).root_index.0 as int] ==> {
                &&& final(self).nodes@.len() == 1
                &&& final(self).root_index == StateIndex(0)
                &&& final(self).nodes@[0].board@ == empty_grid()
                &&& final(self).nodes@[0].turn == Player::Red
                &&& final(self).nodes@[0].children@ == no_children()
            },
    {
        let ghost ns = self.nodes@;
        let ghost kp = keep@;
        let n = self.nodes.len();
        let mut old_to_new: Vec<Option<usize>> = Vec::new();
        let mut cnt: usize = 0;
        let mut i: usize = 0;
        while i < n
            invariant
                n == ns.len(),
                kp == keep@,
                kp.len() == n,
                i <= n,
                old_to_new@.len() == i,
                cnt == count_kept(kp, i as int),
                forall|j: int|
                    0 <= j < i ==> #[trigger] old_to_new@[j] == if kp[j] {
                        Some(count_kept(kp, j) as usize)
                    } else {
                        None
                    },
            decreases n - i,
        {
            proof {
                lemma_count_kept_bound(kp, i as int);
            }
            if keep[i] {
                old_to_new.push(Some(cnt));
                cnt += 1;
            } else {
                old_to_new.push(None);
            }
            i += 1;
        }
        if !keep[self.root_index.0] {
            *self = Tree::from_root(&GameNode::from_board(empty_board(), Player::Red));
            return ;
        }
        let mut new_nodes: Vec<GameNode> = Vec::new();
        let mut table: HashMap<u128, usize> = HashMap::new();
        let ghost mut src: Seq<int> = Seq::empty();
        let mut i: usize = 0;
        while i < n
            invariant
                self.wf(),
                ns == self.nodes@,
                ns == old(self).nodes@,
                self.root_index == old(self).root_index,
                n == ns.len(),
                kp == keep@,
                kp.len() == n,
                i <= n,
                old_to_new@.len() == n,
                forall|j: int|
                    0 <= j < n ==> #[trigger] old_to_new@[j] == if kp[j] {
                        Some(count_kept(kp, j) as usize)
                    } else {
                        None
                    },
                new_nodes@.len() == count_kept(kp, i as int),
                src.len() == new_nodes@.len(),
                forall|k: int|
                    0 <= k < src.len() ==> 0 <= #[trigger] src[k] < i && kp[src[k]] && count_kept(kp, src[k]) == k
                        && moved_to(new_nodes@[k], ns[src[k]], k, kp),
                forall|j: int|
                    0 <= j < i && #[trigger] kp[j] ==> count_kept(kp, j) < src.len() && src[count_kept(kp, j)] == j,
                forall|k: int|
                    0 <= k < new_nodes@.len() ==> table@.contains_key(node_key(#[trigger] new_nodes@[k])) && table@[node_key(new_nodes@[k])] == k,
                forall|key: u128| #[trigger]
                    table@.contains_key(key) ==> table@[key] < new_nodes@.len() && node_key(new_nodes@[table@[key] as int]) == key,
                table@.dom().len() == new_nodes@.len(),
            decreases n - i,
        {
            proof {
                lemma_count_kept_bound(kp, i as int);
            }
            if keep[i] {
                assert(ns[i as int].wf());
                let mut children: Vec<Option<StateIndex>> = Vec::new();
                let mut c: usize = 0;
                while c < WIDTH
                    invariant
                        self.wf(),
                        ns == self.nodes@,
                        n == ns.len(),
                        i < n,
                        kp == keep@,
                        kp.len() == n,
                        old_to_new@.len() == n,
                        forall|j: int|
                            0 <= j < n ==> #[trigger] old_to_new@[j] == if kp[j] {
                                Some(count_kept(kp, j) as usize)
                            } else {
                                None
                            },
                        c <= WIDTH,
                        children@.len() == c,
                        forall|c2: int| 0 <= c2 < c ==> #[trigger] children@[c2] == remap_slot(ns[i as int].children@[c2], kp),
                    decreases WIDTH - c,
                {
                    assert(ns[i as int].wf());
                    assert(edge_ok(ns, i as int, c as int));
                    let slot = match self.nodes[i].children[c] {
                        Some(h) => match old_to_new[h.0] {
                            Some(k) => Some(StateIndex(k)),
                            None => None,
                        },
                        None => None,
                    };
                    children.push(slot);
                    c += 1;
                }
                proof {
                    assert(children@ =~= remap_children(ns[i as int].children@, kp));
                }
                let k = new_nodes.len();
                let node = GameNode {
                    board: self.nodes[i].board.copied(),
                    turn: self.nodes[i].turn,
                    result: self.nodes[i].result,
                    children,
                    index: Some(StateIndex(k)),
                };
                let key = self.nodes[i].board.canonical().code();
                proof {
                    lemma_canon_valid(ns[i as int].board@);
                    lemma_code_fits(canon(ns[i as int].board@));
                    assert(node_key(node) == key);
                    assert(node_key(ns[i as int]) == key);
                    if table@.contains_key(key) {
                        let m = table@[key] as int;
                        let j = src[m];
                        assert(node_key(new_nodes@[m]) == key);
                        assert(moved_to(new_nodes@[m], ns[j], m, kp));
                        assert(node_key(ns[j]) == key);
                        assert(self.table@[node_key(ns[j])] == j);
                        assert(self.table@[node_key(ns[i as int])] == i);
                    }
                    assert(table@.dom().finite());
                }
                let ghost old_table = table@;
                let ghost old_nodes = new_nodes@;
                table.insert(key, k);
                new_nodes.push(node);
                let ghost old_src = src;
                proof {
                    src = src.push(i as int);
                }
                assert(src =~= old_src.push(i as int));
                proof {
                    assert forall|j: int| 0 <= j < i + 1 && #[trigger] kp[j] implies count_kept(kp, j) < src.len()
                        && src[count_kept(kp, j)] == j by {
                        lemma_count_kept_bound(kp, j);
                        if j == i {
                            assert(count_kept(kp, j) == k);
                        } else {
                            assert(count_kept(kp, j) < old_src.len() && old_src[count_kept(kp, j)] == j);
                            assert(src[count_kept(kp, j)] == old_src[count_kept(kp, j)]);
                        }
                    }
                    assert(table@.dom() =~= old_table.dom().insert(key));
                    assert forall|m: int| 0 <= m < new_nodes@.len() implies table@.contains_key(node_key(#[trigger] new_nodes@[m])) && table@[node_key(new_nodes@[m])] == m by {
                        if m < k {
                            assert(new_nodes@[m] == old_nodes[m]);
                            assert(old_table.contains_key(node_key(old_nodes[m])));
                        }
                    }
                    assert forall|key2: u128| #[trigger] table@.contains_key(key2) implies table@[key2] < new_nodes@.len() && node_key(new_nodes@[table@[key2] as int]) == key2 by {
                        if key2 != key {
                            assert(old_table.contains_key(key2));
                            assert(new_nodes@[old_table[key2] as int] == old_nodes[old_table[key2] as int]);
                        }
                    }
                    assert forall|m: int| 0 <= m < src.len() implies 0 <= #[trigger] src[m] < i + 1 && kp[src[m]] && count_kept(kp, src[m]) == m
                        && moved_to(new_nodes@[m], ns[src[m]], m, kp) by {
                        if m < k {
                            assert(new_nodes@[m] == old_nodes[m]);
                        }
                    }
                }
            }
            i += 1;
        }
        let root = match old_to_new[self.root_index.0] {
            Some(r) => r,
            None => 0,
        };
        proof {
            let nn = new_nodes@;
            compaction_keeps_order(kp, self.root_index.0 as int, n as int);
            assert(kp.len() == n);
            assert forall|k: int| 0 <= k < nn.len() implies (#[trigger] nn[k]).wf() && nn[k].index == Some(StateIndex(k as usize)) by {
                assert(moved_to(nn[k], ns[src[k]], k, kp));
                assert(ns[src[k]].wf());
            }
            let z: int = 0;
            lemma_count_kept_bound(kp, self.root_index.0 as int);
            assert(nn.len() >= 1);
            assert(moved_to(nn[z], ns[src[z]], z, kp));
            assert(ns[0].wf());
            assert(ns[src[z]].wf());
            assert(turn_parity(ns[src[z]], ns[0]));
            assert forall|k: int| 0 <= k < nn.len() implies turn_parity(#[trigger] nn[k], nn[0]) by {
                assert(moved_to(nn[k], ns[src[k]], k, kp));
                assert(ns[src[k]].wf());
                assert(turn_parity(ns[src[k]], ns[0]));
            }
            assert forall|k: int, c: int| 0 <= k < nn.len() && 0 <= c < WIDTH implies #[trigger] edge_ok(nn, k, c) by {
                let j = src[k];
                assert(moved_to(nn[k], ns[j], k, kp));
                assert(edge_ok(ns, j, c));
                assert(ns[j].wf());
                if let Some(h) = ns[j].children@[c] {
                    if kp[h.0 as int] {
                        compaction_keeps_order(kp, h.0 as int, n as int);
                        let m = count_kept(kp, h.0 as int);
                        lemma_count_kept_bound(kp, h.0 as int);
                        assert(src[m] == h.0);
                        assert(moved_to(nn[m], ns[h.0 as int], m, kp));
                    }
                }
            }
            assert forall|k: int| 0 <= k < nn.len() implies #[trigger] handle_of_kept(kp, k) by {
                assert(count_kept(kp, src[k]) == k);
            }
            assert forall|i: int| 0 <= i < kp.len() && #[trigger] kp[i] implies moved_to(
                nn[count_kept(kp, i)],
                ns[i],
                count_kept(kp, i),
                kp,
            ) by {
                let m = count_kept(kp, i);
                lemma_count_kept_bound(kp, i);
                assert(src[m] == i);
            }
        }
        proof {
            lemma_count_kept_bound(kp, self.root_index.0 as int);
            assert(table_ok(new_nodes@, table@));
        }
        self.nodes = new_nodes;
        self.table = table;
        self.root_index = StateIndex(root);
        proof {
            assert(self.wf());
            assert forall|k: int, c: int|
                0 <= k < self.nodes@.len() && 0 <= c < WIDTH && #[trigger] self.nodes@[k].children@[c] is Some
                    implies self.nodes@[k].children@[c]->Some_0.0 < self.nodes@.len() by {
                assert(edge_ok(self.nodes@, k, c));
            }
        }
    }
}

} // verus!
