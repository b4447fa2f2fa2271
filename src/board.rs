//! Pieces, the board grid, moves and the mirror-canonical form.
use vstd::prelude::*;

verus! {

/// Number of columns of a board.
pub const WIDTH: usize = 7;

/// Number of rows of a board.
pub const HEIGHT: usize = 6;

/// What a cell holds; also used for the side to move.
#[derive(Debug, Copy, Clone, PartialEq, Eq, Structural, PartialOrd, Ord, Hash)]
pub enum Player {
    Red,
    Yellow,
    Empty,
}

/// Position of a cell value in the order `Red < Yellow < Empty`.
pub open spec fn rank(p: Player) -> int {
    match p {
        Player::Red => 0,
        Player::Yellow => 1,
        Player::Empty => 2,
    }
}

/// The other of the two real players.
pub open spec fn opponent(p: Player) -> Player {
    match p {
        Player::Red => Player::Yellow,
        _ => Player::Red,
    }
}

impl Player {
    /// The opponent of a real player; the empty cell has none.
    pub fn flip(&self) -> (r: Player)
        requires
            *self != Player::Empty,
        ensures
            r == opponent(*self),
            r != Player::Empty,
            r != *self,
    {
        match self {
            Player::Red => Player::Yellow,
            _ => Player::Red,
        }
    }
}


/// The mathematical form of a board: `WIDTH` columns, each a sequence of cells from row 0 up.
pub type Grid = Seq<Seq<Player>>;

/// Every column is present and has `HEIGHT` cells.
pub open spec fn shaped(g: Grid) -> bool {
    &&& g.len() == WIDTH
    &&& forall|c: int| 0 <= c < WIDTH ==> (#[trigger] g[c]).len() == HEIGHT
}

/// Pieces rest on the bottom or on another piece: the filled cells of each column are exactly
/// its run of filled cells from row 0.
pub open spec fn settled(g: Grid) -> bool {
    forall|c: int, r: int|
        0 <= c < WIDTH && 0 <= r < HEIGHT ==> (#[trigger] g[c][r] != Player::Empty <==> r < col_height(
            g[c],
        ))
}

/// A well-formed board grid.
pub open spec fn valid_grid(g: Grid) -> bool {
    shaped(g) && settled(g)
}

/// End of the run of filled cells of `col` that starts at row `r`.
pub open spec fn run_from(col: Seq<Player>, r: int) -> int
    decreases col.len() - r,
{
    if 0 <= r < col.len() && col[r] != Player::Empty {
        run_from(col, r + 1)
    } else {
        r
    }
}

/// Number of pieces in a column: the length of its filled run from the bottom.
pub open spec fn col_height(col: Seq<Player>) -> int {
    run_from(col, 0)
}

/// Column `c` has no empty cell left.
pub open spec fn is_full(g: Grid, c: int) -> bool {
    col_height(g[c]) >= HEIGHT
}

/// The grid after dropping `p` into column `c`: it lands on the lowest empty cell.
pub open spec fn played(g: Grid, c: int, p: Player) -> Grid {
    g.update(c, g[c].update(col_height(g[c]), p))
}

/// The grid with the order of its columns reversed.
pub open spec fn mirror(g: Grid) -> Grid {
    Seq::new(g.len(), |c: int| g[g.len() - 1 - c])
}

/// Lexicographic order on two columns of equal length, by `rank` of the cells from row 0 up.
pub open spec fn col_less(x: Seq<Player>, y: Seq<Player>) -> bool {
    exists|k: int|
        0 <= k < x.len() && k < y.len() && (forall|j: int| 0 <= j < k ==> x[j] == y[j]) && rank(
            #[trigger] x[k],
        ) < rank(y[k])
}

/// Lexicographic order on two grids of equal shape, column by column.
pub open spec fn grid_less(a: Grid, b: Grid) -> bool {
    exists|k: int|
        0 <= k < a.len() && k < b.len() && (forall|j: int| 0 <= j < k ==> a[j] == b[j])
            && #[trigger] col_less(a[k], b[k])
}

/// The canonical form: the smaller of a grid and its mirror.
pub open spec fn canon(g: Grid) -> Grid {
    if grid_less(g, mirror(g)) {
        g
    } else {
        mirror(g)
    }
}

/// The board with no piece on it.
pub open spec fn empty_grid() -> Grid {
    Seq::new(WIDTH as nat, |c: int| Seq::new(HEIGHT as nat, |r: int| Player::Empty))
}

/// A move into a column that has no empty cell left.
#[derive(Debug, Copy, Clone, PartialEq, Eq, Structural)]
pub struct ColumnFull;

/// A board: `WIDTH` columns of `HEIGHT` cells, row 0 at the bottom.
#[derive(Debug, Clone)]
pub struct Board(pub Vec<Vec<Player>>);

fn same_cells(a: &Board, b: &Board) -> (r: bool)
    ensures
        r == (a@ == b@),
{
    if a.0.len() != b.0.len() {
        assert(a@.len() != b@.len());
        return false;
    }
    let mut c: usize = 0;
    while c < a.0.len()
        invariant
            c <= a.0@.len(),
            a.0@.len() == b.0@.len(),
            forall|x: int| 0 <= x < c ==> (#[trigger] a@[x]) == b@[x],
        decreases a.0@.len() - c,
    {
        if a.0[c].len() != b.0[c].len() {
            assert(a@[c as int].len() != b@[c as int].len());
            return false;
        }
        let mut r: usize = 0;
        while r < a.0[c].len()
            invariant
                c < a.0@.len(),
                a.0@.len() == b.0@.len(),
                a@[c as int].len() == b@[c as int].len(),
                r <= a@[c as int].len(),
                forall|j: int| 0 <= j < r ==> a@[c as int][j] == b@[c as int][j],
            decreases a@[c as int].len() - r,
        {
            if a.0[c][r] != b.0[c][r] {
                assert(a@[c as int][r as int] != b@[c as int][r as int]);
                return false;
            }
            r += 1;
        }
        assert(a@[c as int] =~= b@[c as int]);
        c += 1;
    }
    assert(a@ =~= b@);
    true
}

impl PartialEq for Board {
    fn eq(&self, other: &Board) -> bool {
        if self.is_valid() && other.is_valid() {
            self.same_position(other)
        } else {
            same_cells(self, other)
        }
    }
}

impl vstd::std_specs::cmp::PartialEqSpecImpl for Board {
    open spec fn obeys_eq_spec() -> bool {
        true
    }

    open spec fn eq_spec(&self, other: &Board) -> bool {
        same_board(self@, other@)
    }
}

impl View for Board {
    type V = Grid;

    open spec fn view(&self) -> Grid {
        self.0@.map_values(|c: Vec<Player>| c@)
    }
}

pub proof fn lemma_run_from(col: Seq<Player>, r: int)
    requires
        0 <= r <= col.len(),
    ensures
        r <= run_from(col, r) <= col.len(),
        forall|j: int| r <= j < run_from(col, r) ==> col[j] != Player::Empty,
        run_from(col, r) < col.len() ==> col[run_from(col, r)] == Player::Empty,
    decreases col.len() - r,
{
    if r < col.len() && col[r] != Player::Empty {
        lemma_run_from(col, r + 1);
    }
}

/// A column whose first `k` cells are filled and whose cell `k`, if any, is empty has height `k`.
pub proof fn lemma_height_is(col: Seq<Player>, k: int)
    requires
        0 <= k <= col.len(),
        forall|j: int| 0 <= j < k ==> col[j] != Player::Empty,
        k < col.len() ==> col[k] == Player::Empty,
    ensures
        col_height(col) == k,
{
    lemma_run_from(col, 0);
    let h = col_height(col);
    if h < k {
        assert(col[h] != Player::Empty);
    } else if h > k {
        assert(col[k] != Player::Empty);
    }
}

/// Heights of the columns of a well-formed grid lie between 0 and `HEIGHT`.
pub proof fn lemma_col_height(g: Grid, c: int)
    requires
        valid_grid(g),
        0 <= c < WIDTH,
    ensures
        0 <= col_height(g[c]) <= HEIGHT,
{
    lemma_run_from(g[c], 0);
}

/// Mirroring twice gives the grid back.
pub proof fn lemma_mirror_mirror(g: Grid)
    ensures
        mirror(mirror(g)) == g,
{
    assert(mirror(mirror(g)) =~= g);
}

/// The mirror of a well-formed grid is well formed.
pub proof fn lemma_mirror_valid(g: Grid)
    requires
        valid_grid(g),
    ensures
        valid_grid(mirror(g)),
{
    let m = mirror(g);
    assert forall|c: int| 0 <= c < WIDTH implies (#[trigger] m[c]).len() == HEIGHT by {
        assert(m[c] == g[WIDTH - 1 - c]);
    }
    assert forall|c: int, r: int| 0 <= c < WIDTH && 0 <= r < HEIGHT implies (#[trigger] m[c][r]
        != Player::Empty <==> r < col_height(m[c])) by {
        assert(m[c] == g[WIDTH - 1 - c]);
        assert(g[WIDTH - 1 - c][r] != Player::Empty <==> r < col_height(g[WIDTH - 1 - c]));
    }
}

/// Dropping a piece into a column that has room keeps the grid well formed and raises
/// that column by one.
pub proof fn lemma_played(g: Grid, c: int, p: Player)
    requires
        valid_grid(g),
        0 <= c < WIDTH,
        !is_full(g, c),
        p != Player::Empty,
    ensures
        valid_grid(played(g, c, p)),
        col_height(played(g, c, p)[c]) == col_height(g[c]) + 1,
{
    lemma_col_height(g, c);
    let h = col_height(g[c]);
    let n = played(g, c, p);
    let col = n[c];
    assert(g[c][h] == Player::Empty);
    assert forall|j: int| 0 <= j < h + 1 implies col[j] != Player::Empty by {
        if j < h {
            assert(g[c][j] != Player::Empty);
        }
    }
    if h + 1 < HEIGHT {
        assert(g[c][h + 1] == Player::Empty);
    }
    lemma_height_is(col, h + 1);
    assert forall|x: int, r: int| 0 <= x < WIDTH && 0 <= r < HEIGHT implies (#[trigger] n[x][r]
        != Player::Empty <==> r < col_height(n[x])) by {
        if x != c {
            assert(n[x] == g[x]);
        } else if r != h {
            assert(g[c][r] != Player::Empty <==> r < h);
        }
    }
}

/// Position of the first difference of two sequences that differ from `i` on.
pub proof fn lemma_first_diff<A>(x: Seq<A>, y: Seq<A>, i: int) -> (k: int)
    requires
        x.len() == y.len(),
        0 <= i <= x.len(),
        forall|j: int| 0 <= j < i ==> x[j] == y[j],
        exists|j: int| i <= j < x.len() && x[j] != y[j],
    ensures
        i <= k < x.len(),
        x[k] != y[k],
        forall|j: int| 0 <= j < k ==> x[j] == y[j],
    decreases x.len() - i,
{
    if x[i] != y[i] {
        i
    } else {
        lemma_first_diff(x, y, i + 1)
    }
}

/// The column order is a strict total order on columns of one length.
pub proof fn lemma_col_order(x: Seq<Player>, y: Seq<Player>)
    requires
        x.len() == y.len(),
    ensures
        !(col_less(x, y) && col_less(y, x)),
        !col_less(x, x),
        x == y || col_less(x, y) || col_less(y, x),
{
    if col_less(x, y) && col_less(y, x) {
        let k1 = choose|k: int|
            0 <= k < x.len() && k < y.len() && (forall|j: int| 0 <= j < k ==> x[j] == y[j]) && rank(
                #[trigger] x[k],
            ) < rank(y[k]);
        let k2 = choose|k: int|
            0 <= k < y.len() && k < x.len() && (forall|j: int| 0 <= j < k ==> y[j] == x[j]) && rank(
                #[trigger] y[k],
            ) < rank(x[k]);
        if k1 < k2 {
            assert(x[k1] == y[k1]);
        } else if k2 < k1 {
            assert(x[k2] == y[k2]);
        }
    }
    if x != y {
        assert(!(x =~= y));
        let k = lemma_first_diff(x, y, 0);
        if rank(x[k]) < rank(y[k]) {
            assert(col_less(x, y));
        } else {
            assert(rank(y[k]) < rank(x[k]));
            assert(col_less(y, x));
        }
    }
}

/// The grid order is a strict total order on grids of one shape.
pub proof fn lemma_grid_order(a: Grid, b: Grid)
    requires
        shaped(a),
        shaped(b),
    ensures
        !(grid_less(a, b) && grid_less(b, a)),
        !grid_less(a, a),
        a == b || grid_less(a, b) || grid_less(b, a),
{
    if grid_less(a, b) && grid_less(b, a) {
        let k1 = choose|k: int|
            0 <= k < a.len() && k < b.len() && (forall|j: int| 0 <= j < k ==> a[j] == b[j])
                && #[trigger] col_less(a[k], b[k]);
        let k2 = choose|k: int|
            0 <= k < b.len() && k < a.len() && (forall|j: int| 0 <= j < k ==> b[j] == a[j])
                && #[trigger] col_less(b[k], a[k]);
        if k1 < k2 {
            assert(a[k1] == b[k1]);
            lemma_col_order(a[k1], b[k1]);
        } else if k2 < k1 {
            assert(a[k2] == b[k2]);
            lemma_col_order(a[k2], b[k2]);
        } else {
            lemma_col_order(a[k1], b[k1]);
        }
    }
    if grid_less(a, a) {
        let k = choose|k: int|
            0 <= k < a.len() && k < a.len() && (forall|j: int| 0 <= j < k ==> a[j] == a[j])
                && #[trigger] col_less(a[k], a[k]);
        lemma_col_order(a[k], a[k]);
    }
    if a != b {
        assert(!(a =~= b));
        let k = lemma_first_diff(a, b, 0);
        lemma_col_order(a[k], b[k]);
        if col_less(a[k], b[k]) {
            assert(grid_less(a, b));
        } else {
            assert(grid_less(b, a));
        }
    }
}

/// Canonicalizing twice gives the same grid as canonicalizing once.
pub proof fn canonical_idempotent(g: Grid)
    requires
        shaped(g),
    ensures
        canon(canon(g)) == canon(g),
{
    lemma_mirror_mirror(g);
    lemma_mirror_shaped(g);
    lemma_grid_order(g, mirror(g));
    lemma_grid_order(mirror(g), g);
}

/// A grid and its mirror have the same canonical form.
pub proof fn canonical_mirror(g: Grid)
    requires
        shaped(g),
    ensures
        canon(mirror(g)) == canon(g),
{
    lemma_mirror_mirror(g);
    lemma_mirror_shaped(g);
    lemma_grid_order(g, mirror(g));
}

/// The mirror of a grid of `WIDTH` columns of `HEIGHT` cells has that shape too.
pub proof fn lemma_mirror_shaped(g: Grid)
    requires
        shaped(g),
    ensures
        shaped(mirror(g)),
{
    assert forall|c: int| 0 <= c < WIDTH implies (#[trigger] mirror(g)[c]).len() == HEIGHT by {
        assert(mirror(g)[c] == g[WIDTH - 1 - c]);
    }
}

/// Two grids with one canonical form are equal or mirrors of each other.
pub proof fn lemma_same_canon(a: Grid, b: Grid)
    requires
        canon(a) == canon(b),
    ensures
        b == a || b == mirror(a),
{
    lemma_mirror_mirror(a);
    lemma_mirror_mirror(b);
}

/// `base` to the power `n`.
pub open spec fn power(base: int, n: nat) -> int
    decreases n,
{
    if n == 0 {
        1
    } else {
        base * power(base, (n - 1) as nat)
    }
}

/// A column read as a number in base 4, row 0 the most significant digit.
pub open spec fn col_code(col: Seq<Player>) -> int
    decreases col.len(),
{
    if col.len() == 0 {
        0
    } else {
        col_code(col.drop_last()) * 4 + rank(col.last())
    }
}

/// A grid read as a number in base `4^HEIGHT`, one digit per column, column 0 the most
/// significant.
pub open spec fn grid_code(g: Grid) -> int
    decreases g.len(),
{
    if g.len() == 0 {
        0
    } else {
        grid_code(g.drop_last()) * 4096 + col_code(g.last())
    }
}

proof fn lemma_power_mono(base: int, n: nat, m: nat)
    requires
        base >= 1,
        n <= m,
    ensures
        1 <= power(base, n) <= power(base, m),
    decreases m,
{
    if m > n {
        lemma_power_mono(base, n, (m - 1) as nat);
        assert(base * power(base, (m - 1) as nat) >= power(base, (m - 1) as nat)) by (nonlinear_arith)
            requires
                base >= 1,
                power(base, (m - 1) as nat) >= 1,
        ;
    } else if n > 0 {
        lemma_power_mono(base, (n - 1) as nat, (n - 1) as nat);
        assert(base * power(base, (n - 1) as nat) >= 1) by (nonlinear_arith)
            requires
                base >= 1,
                power(base, (n - 1) as nat) >= 1,
        ;
    }
}

proof fn lemma_col_code_bound(col: Seq<Player>)
    ensures
        0 <= col_code(col) < power(4, col.len()),
    decreases col.len(),
{
    if col.len() > 0 {
        lemma_col_code_bound(col.drop_last());
    }
}

proof fn lemma_col_code_injective(x: Seq<Player>, y: Seq<Player>)
    requires
        x.len() == y.len(),
        col_code(x) == col_code(y),
    ensures
        x == y,
    decreases x.len(),
{
    if x.len() > 0 {
        lemma_col_code_bound(x.drop_last());
        lemma_col_code_bound(y.drop_last());
        vstd::arithmetic::div_mod::lemma_fundamental_div_mod_converse(
            col_code(x),
            4,
            col_code(x.drop_last()),
            rank(x.last()),
        );
        vstd::arithmetic::div_mod::lemma_fundamental_div_mod_converse(
            col_code(y),
            4,
            col_code(y.drop_last()),
            rank(y.last()),
        );
        lemma_col_code_injective(x.drop_last(), y.drop_last());
        assert(x.last() == y.last());
        assert(x =~= x.drop_last().push(x.last()));
        assert(y =~= y.drop_last().push(y.last()));
    }
}

proof fn lemma_grid_code_bound(g: Grid)
    requires
        forall|c: int| 0 <= c < g.len() ==> (#[trigger] g[c]).len() == HEIGHT,
    ensures
        0 <= grid_code(g) < power(4096, g.len()),
    decreases g.len(),
{
    if g.len() > 0 {
        let h = g.drop_last();
        assert forall|c: int| 0 <= c < h.len() implies (#[trigger] h[c]).len() == HEIGHT by {
            assert(h[c] == g[c]);
        }
        lemma_grid_code_bound(h);
        lemma_col_code_bound(g.last());
        reveal_with_fuel(power, 7);
        assert(power(4, HEIGHT as nat) == 4096);
    }
}

/// Distinct grids of one shape have distinct codes.
pub proof fn lemma_grid_code_injective(a: Grid, b: Grid)
    requires
        a.len() == b.len(),
        forall|c: int| 0 <= c < a.len() ==> (#[trigger] a[c]).len() == HEIGHT,
        forall|c: int| 0 <= c < b.len() ==> (#[trigger] b[c]).len() == HEIGHT,
        grid_code(a) == grid_code(b),
    ensures
        a == b,
    decreases a.len(),
{
    if a.len() > 0 {
        let a0 = a.drop_last();
        let b0 = b.drop_last();
        assert forall|c: int| 0 <= c < a0.len() implies (#[trigger] a0[c]).len() == HEIGHT by {
            assert(a0[c] == a[c]);
        }
        assert forall|c: int| 0 <= c < b0.len() implies (#[trigger] b0[c]).len() == HEIGHT by {
            assert(b0[c] == b[c]);
        }
        lemma_col_code_bound(a.last());
        lemma_col_code_bound(b.last());
        reveal_with_fuel(power, 7);
        assert(power(4, HEIGHT as nat) == 4096);
        vstd::arithmetic::div_mod::lemma_fundamental_div_mod_converse(
            grid_code(a),
            4096,
            grid_code(a0),
            col_code(a.last()),
        );
        vstd::arithmetic::div_mod::lemma_fundamental_div_mod_converse(
            grid_code(b),
            4096,
            grid_code(b0),
            col_code(b.last()),
        );
        lemma_grid_code_injective(a0, b0);
        lemma_col_code_injective(a.last(), b.last());
        assert(a =~= a0.push(a.last()));
        assert(b =~= b0.push(b.last()));
    }
}

/// The code of a board grid fits in 128 bits.
pub proof fn lemma_code_fits(g: Grid)
    requires
        shaped(g),
    ensures
        0 <= grid_code(g) <= u128::MAX,
{
    lemma_grid_code_bound(g);
    reveal_with_fuel(power, 8);
    assert(power(4096, 7) == 19342813113834066795298816);
}

/// The canonical form of a well-formed grid is well formed.
pub proof fn lemma_canon_valid(g: Grid)
    requires
        valid_grid(g),
    ensures
        valid_grid(canon(g)),
{
    lemma_mirror_valid(g);
}

/// Two well-formed grids whose canonical forms have one code have one canonical form.
pub proof fn lemma_canon_code(a: Grid, b: Grid)
    requires
        valid_grid(a),
        valid_grid(b),
        grid_code(canon(a)) == grid_code(canon(b)),
    ensures
        canon(a) == canon(b),
{
    lemma_canon_valid(a);
    lemma_canon_valid(b);
    lemma_grid_code_injective(canon(a), canon(b));
}

/// Number of pieces in the first `n` columns.
pub open spec fn pieces_upto(g: Grid, n: int) -> int
    decreases n,
{
    if n <= 0 {
        0
    } else {
        pieces_upto(g, n - 1) + col_height(g[n - 1])
    }
}

/// Number of pieces on the grid.
pub open spec fn pieces(g: Grid) -> int {
    pieces_upto(g, WIDTH as int)
}

proof fn lemma_pieces_upto_bound(g: Grid, n: int)
    requires
        valid_grid(g),
        0 <= n <= WIDTH,
    ensures
        0 <= pieces_upto(g, n) <= n * 6,
    decreases n,
{
    if n > 0 {
        lemma_pieces_upto_bound(g, n - 1);
        lemma_col_height(g, n - 1);
    }
}

/// A board holds between none and `WIDTH * HEIGHT` pieces.
pub proof fn lemma_pieces_bound(g: Grid)
    requires
        valid_grid(g),
    ensures
        0 <= pieces(g) <= WIDTH * HEIGHT,
{
    lemma_pieces_upto_bound(g, WIDTH as int);
}

proof fn lemma_pieces_upto_update(g: Grid, h: Grid, c: int, n: int)
    requires
        g.len() == h.len(),
        0 <= c < g.len(),
        0 <= n <= g.len(),
        forall|x: int| 0 <= x < g.len() && x != c ==> g[x] == h[x],
        col_height(h[c]) == col_height(g[c]) + 1,
    ensures
        pieces_upto(h, n) == pieces_upto(g, n) + if c < n {
            1int
        } else {
            0int
        },
    decreases n,
{
    if n > 0 {
        lemma_pieces_upto_update(g, h, c, n - 1);
    }
}

/// A move adds one piece.
pub proof fn lemma_pieces_played(g: Grid, c: int, p: Player)
    requires
        valid_grid(g),
        0 <= c < WIDTH,
        !is_full(g, c),
        p != Player::Empty,
    ensures
        pieces(played(g, c, p)) == pieces(g) + 1,
{
    lemma_played(g, c, p);
    lemma_pieces_upto_update(g, played(g, c, p), c, WIDTH as int);
}

proof fn lemma_pieces_upto_mirror(g: Grid, n: int)
    requires
        g.len() == WIDTH,
        0 <= n <= WIDTH,
    ensures
        pieces_upto(mirror(g), n) + pieces_upto(g, WIDTH - n) == pieces(g),
    decreases n,
{
    if n > 0 {
        lemma_pieces_upto_mirror(g, n - 1);
        assert(mirror(g)[n - 1] == g[WIDTH - n]);
    }
}

/// Mirroring keeps the number of pieces.
pub proof fn lemma_pieces_mirror(g: Grid)
    requires
        g.len() == WIDTH,
    ensures
        pieces(mirror(g)) == pieces(g),
{
    lemma_pieces_upto_mirror(g, WIDTH as int);
}

/// Two grids with one canonical form hold the same number of pieces.
pub proof fn lemma_pieces_canon(a: Grid, b: Grid)
    requires
        a.len() == WIDTH,
        canon(a) == canon(b),
    ensures
        pieces(a) == pieces(b),
{
    lemma_same_canon(a, b);
    lemma_pieces_mirror(a);
}

/// Column `x` can never grow into column `y` by adding pieces on top: it holds more pieces,
/// or as many but not the same ones.
pub open spec fn col_rejects(x: Seq<Player>, y: Seq<Player>) -> bool {
    ||| col_height(x) > col_height(y)
    ||| col_height(x) == col_height(y) && exists|r: int| 0 <= r < col_height(x) && #[trigger] x[r] != y[r]
}

/// Some column of `g` can never grow into the same column of `t`.
pub open spec fn rejects(g: Grid, t: Grid) -> bool {
    exists|c: int| 0 <= c < WIDTH && #[trigger] col_rejects(g[c], t[c])
}

/// No sequence of moves turns `g` into `t` or into the mirror of `t`.
pub open spec fn cannot_lead_to(g: Grid, t: Grid) -> bool {
    rejects(g, t) && rejects(g, mirror(t))
}

/// Column `x`'s pieces are the first pieces of column `y`.
pub open spec fn col_prefix(x: Seq<Player>, y: Seq<Player>) -> bool {
    &&& col_height(x) <= col_height(y)
    &&& forall|r: int| 0 <= r < col_height(x) ==> x[r] == y[r]
}

/// A move keeps a column conflict: pieces are only ever added on top of a column.
pub proof fn lemma_rejects_played(g: Grid, t: Grid, c: int, p: Player)
    requires
        valid_grid(g),
        rejects(g, t),
        0 <= c < WIDTH,
        !is_full(g, c),
        p != Player::Empty,
    ensures
        rejects(played(g, c, p), t),
{
    lemma_played(g, c, p);
    let n = played(g, c, p);
    let w = choose|w: int| 0 <= w < WIDTH && #[trigger] col_rejects(g[w], t[w]);
    if w != c {
        assert(n[w] == g[w]);
        assert(col_rejects(n[w], t[w]));
    } else {
        assert(col_height(n[c]) > col_height(t[c]));
        assert(col_rejects(n[c], t[c]));
    }
}

/// Mirroring both grids keeps a column conflict.
pub proof fn lemma_rejects_mirror(g: Grid, t: Grid)
    requires
        g.len() == WIDTH,
        t.len() == WIDTH,
        rejects(g, t),
    ensures
        rejects(mirror(g), mirror(t)),
{
    let w = choose|w: int| 0 <= w < WIDTH && #[trigger] col_rejects(g[w], t[w]);
    let v = WIDTH - 1 - w;
    assert(mirror(g)[v] == g[w]);
    assert(mirror(t)[v] == t[w]);
    assert(col_rejects(mirror(g)[v], mirror(t)[v]));
}

/// A board that cannot lead to `t` has no successor, as played or mirrored, that can.
pub proof fn lemma_cannot_lead_step(g: Grid, t: Grid, c: int, p: Player, h: Grid)
    requires
        valid_grid(g),
        t.len() == WIDTH,
        cannot_lead_to(g, t),
        0 <= c < WIDTH,
        !is_full(g, c),
        p != Player::Empty,
        h == played(g, c, p) || h == mirror(played(g, c, p)),
    ensures
        cannot_lead_to(h, t),
{
    let n = played(g, c, p);
    lemma_rejects_played(g, t, c, p);
    lemma_rejects_played(g, mirror(t), c, p);
    if h == mirror(n) {
        lemma_rejects_mirror(n, t);
        lemma_rejects_mirror(n, mirror(t));
        lemma_mirror_mirror(t);
    }
}

/// A board that cannot lead to `t` is not `t` up to mirroring.
pub proof fn lemma_cannot_lead_differs(g: Grid, t: Grid)
    requires
        cannot_lead_to(g, t),
    ensures
        canon(g) != canon(t),
{
    if canon(g) == canon(t) {
        lemma_same_canon(g, t);
        lemma_mirror_mirror(g);
        let x = if t == g {
            t
        } else {
            mirror(t)
        };
        assert(x == g);
        let w = choose|w: int| 0 <= w < WIDTH && #[trigger] col_rejects(g[w], x[w]);
        assert(!col_rejects(g[w], g[w]));
    }
}

/// A board each of whose columns is the bottom of the same column of `t` is never rejected
/// as unable to lead to `t`.
pub proof fn prefix_board_not_rejected(g: Grid, t: Grid)
    requires
        forall|c: int| 0 <= c < WIDTH ==> #[trigger] col_prefix(g[c], t[c]),
    ensures
        !rejects(g, t),
        !cannot_lead_to(g, t),
{
    if rejects(g, t) {
        let w = choose|w: int| 0 <= w < WIDTH && #[trigger] col_rejects(g[w], t[w]);
        assert(col_prefix(g[w], t[w]));
    }
}

/// Equality of boards as positions: two well-formed boards are equal when they are equal or
/// mirrors of each other; any other pair is equal cell for cell.
pub open spec fn same_board(a: Grid, b: Grid) -> bool {
    if valid_grid(a) && valid_grid(b) {
        canon(a) == canon(b)
    } else {
        a == b
    }
}

fn rank_of(p: Player) -> (r: u8)
    ensures
        r as int == rank(p),
{
    match p {
        Player::Red => 0,
        Player::Yellow => 1,
        Player::Empty => 2,
    }
}

fn copy_column(col: &Vec<Player>) -> (r: Vec<Player>)
    ensures
        r@ == col@,
{
    let mut out: Vec<Player> = Vec::new();
    let mut i: usize = 0;
    while i < col.len()
        invariant
            i <= col.len(),
            out@ == col@.subrange(0, i as int),
        decreases col.len() - i,
    {
        out.push(col[i]);
        i += 1;
        proof {
            assert(out@ =~= col@.subrange(0, i as int));
        }
    }
    proof {
        assert(out@ =~= col@);
    }
    out
}

/// A board with nothing on it.
pub fn empty_board() -> (r: Board)
    ensures
        r@ == empty_grid(),
        r.wf(),
{
    let mut grid: Vec<Vec<Player>> = Vec::new();
    let mut x: usize = 0;
    while x < WIDTH
        invariant
            x <= WIDTH,
            grid@.len() == x,
            forall|c: int| 0 <= c < x ==> (#[trigger] grid@[c])@ == Seq::new(HEIGHT as nat, |r: int| Player::Empty),
        decreases WIDTH - x,
    {
        let column: Vec<Player> = vec![Player::Empty; HEIGHT];
        proof {
            assert(column@ =~= Seq::new(HEIGHT as nat, |r: int| Player::Empty));
        }
        grid.push(column);
        x += 1;
    }
    let r = Board(grid);
    proof {
        assert(r@ =~= empty_grid());
    }
    r
}

impl Board {
    /// The board has `WIDTH` columns of `HEIGHT` cells and no piece floats over an empty cell.
    pub open spec fn wf(&self) -> bool {
        valid_grid(self@)
    }

    /// A copy of this board.
    pub fn copied(&self) -> (r: Board)
        ensures
            r@ == self@,
    {
        let mut grid: Vec<Vec<Player>> = Vec::new();
        let mut x: usize = 0;
        while x < self.0.len()
            invariant
                x <= self.0.len(),
                grid@.len() == x,
                forall|c: int| 0 <= c < x ==> (#[trigger] grid@[c])@ == self@[c],
            decreases self.0.len() - x,
        {
            grid.push(copy_column(&self.0[x]));
            x += 1;
        }
        let r = Board(grid);
        proof {
            assert(r@ =~= self@);
        }
        r
    }

    fn set_cell(&mut self, c: usize, r: usize, p: Player)
        requires
            c < old(self).0.len(),
            r < old(self).0@[c as int].len(),
        ensures
            final(self)@ == old(self)@.update(c as int, old(self)@[c as int].update(r as int, p)),
    {
        let mut column = copy_column(&self.0[c]);
        column.set(r, p);
        let ghost before = self@;
        self.0.set(c, column);
        proof {
            assert(self@ =~= before.update(c as int, before[c as int].update(r as int, p)));
        }
    }

    /// Drops `player` into column `col`, onto the lowest empty cell. A full column is refused
    /// and the board is left as it was.
    pub fn play(&mut self, col: usize, player: Player) -> (r: Result<(), ColumnFull>)
        requires
            old(self).wf(),
            col < WIDTH,
        ensures
            r is Err <==> is_full(old(self)@, col as int),
            r is Ok ==> final(self)@ == played(old(self)@, col as int, player),
            r is Err ==> final(self)@ == old(self)@,
            final(self).wf(),
    {
        let ghost g = self@;
        proof {
            lemma_col_height(g, col as int);
        }
        let mut y: usize = 0;
        while y < HEIGHT
            invariant
                y <= HEIGHT,
                col < WIDTH,
                self@ == g,
                old(self)@ == g,
                valid_grid(g),
                0 <= col_height(g[col as int]) <= HEIGHT,
                forall|j: int| 0 <= j < y ==> g[col as int][j] != Player::Empty,
            decreases HEIGHT - y,
        {
            let cell = self.0[col][y];
            assert(cell == g[col as int][y as int]);
            if cell == Player::Empty {
                proof {
                    lemma_height_is(g[col as int], y as int);
                    if player != Player::Empty {
                        lemma_played(g, col as int, player);
                    } else {
                        assert(g[col as int].update(y as int, player) =~= g[col as int]);
                        assert(played(g, col as int, player) =~= g);
                    }
                }
                self.set_cell(col, y, player);
                return Ok(());
            }
            y += 1;
        }
        proof {
            lemma_height_is(g[col as int], HEIGHT as int);
        }
        Err(ColumnFull)
    }

    /// The board with the order of its columns reversed.
    pub fn mirrored(&self) -> (r: Board)
        requires
            self.wf(),
        ensures
            r@ == mirror(self@),
            r.wf(),
    {
        let mut grid: Vec<Vec<Player>> = Vec::new();
        let mut x: usize = 0;
        while x < WIDTH
            invariant
                x <= WIDTH,
                self.wf(),
                grid@.len() == x,
                forall|c: int| 0 <= c < x ==> (#[trigger] grid@[c])@ == mirror(self@)[c],
            decreases WIDTH - x,
        {
            grid.push(copy_column(&self.0[WIDTH - 1 - x]));
            x += 1;
        }
        let r = Board(grid);
        proof {
            assert(r@ =~= mirror(self@));
            lemma_mirror_valid(self@);
        }
        r
    }

    /// The smaller of this board and its mirror, comparing column by column from column 0
    /// and, within a column, from row 0 up.
    pub fn canonical(&self) -> (r: Board)
        requires
            self.wf(),
        ensures
            r@ == canon(self@),
            r.wf(),
    {
        if self.below_mirror() {
            self.copied()
        } else {
            self.mirrored()
        }
    }

    /// Number of the column's filled cells.
    pub fn height(&self, col: usize) -> (r: usize)
        requires
            self.wf(),
            col < WIDTH,
        ensures
            r == col_height(self@[col as int]),
    {
        let ghost g = self@;
        proof {
            lemma_col_height(g, col as int);
        }
        let mut y: usize = 0;
        while y < HEIGHT
            invariant
                y <= HEIGHT,
                col < WIDTH,
                self@ == g,
                valid_grid(g),
                0 <= col_height(g[col as int]) <= HEIGHT,
                forall|j: int| 0 <= j < y ==> g[col as int][j] != Player::Empty,
            decreases HEIGHT - y,
        {
            let cell = self.0[col][y];
            assert(cell == g[col as int][y as int]);
            if cell == Player::Empty {
                proof {
                    lemma_height_is(g[col as int], y as int);
                }
                return y;
            }
            y += 1;
        }
        proof {
            lemma_height_is(g[col as int], HEIGHT as int);
        }
        HEIGHT
    }

    /// This board as a number: distinct boards have distinct codes.
    pub fn code(&self) -> (r: u128)
        requires
            self.wf(),
        ensures
            r == grid_code(self@),
    {
        let ghost g = self@;
        let mut acc: u128 = 0;
        let mut x: usize = 0;
        proof {
            reveal_with_fuel(power, 8);
            assert(power(4096, 7) == 19342813113834066795298816);
            assert(power(4, 6) == 4096);
        }
        while x < WIDTH
            invariant
                x <= WIDTH,
                g == self@,
                valid_grid(g),
                acc == grid_code(g.subrange(0, x as int)),
                acc < power(4096, x as nat),
                power(4096, 7) == 19342813113834066795298816,
                power(4, 6) == 4096,
            decreases WIDTH - x,
        {
            let mut digit: u128 = 0;
            let mut y: usize = 0;
            while y < HEIGHT
                invariant
                    x < WIDTH,
                    y <= HEIGHT,
                    g == self@,
                    valid_grid(g),
                    digit == col_code(g[x as int].subrange(0, y as int)),
                    digit < power(4, y as nat),
                    power(4, 6) == 4096,
                decreases HEIGHT - y,
            {
                let cell = self.0[x][y];
                assert(cell == g[x as int][y as int]);
                proof {
                    lemma_power_mono(4, y as nat, 5);
                    let s = g[x as int].subrange(0, y as int + 1);
                    assert(s.drop_last() =~= g[x as int].subrange(0, y as int));
                }
                digit = digit * 4 + rank_of(cell) as u128;
                y += 1;
            }
            proof {
                assert(g[x as int].subrange(0, HEIGHT as int) =~= g[x as int]);
                lemma_power_mono(4096, x as nat, 6);
                let s = g.subrange(0, x as int + 1);
                assert(s.drop_last() =~= g.subrange(0, x as int));
            }
            acc = acc * 4096 + digit;
            x += 1;
        }
        proof {
            assert(g.subrange(0, WIDTH as int) =~= g);
        }
        acc
    }

    /// Number of pieces on the board.
    pub fn pieces_count(&self) -> (r: usize)
        requires
            self.wf(),
        ensures
            r == pieces(self@),
    {
        let mut acc: usize = 0;
        let mut x: usize = 0;
        while x < WIDTH
            invariant
                x <= WIDTH,
                self.wf(),
                acc == pieces_upto(self@, x as int),
                acc <= x * 6,
            decreases WIDTH - x,
        {
            let h = self.height(x);
            proof {
                lemma_col_height(self@, x as int);
            }
            acc = acc + h;
            x += 1;
        }
        acc
    }

    /// Whether some column of this board can never grow into the same column of `target`: it
    /// holds more pieces, or as many but not the same ones.
    pub fn conflicts_with(&self, target: &Board) -> (r: bool)
        requires
            self.wf(),
            target.wf(),
        ensures
            r == rejects(self@, target@),
    {
        let ghost g = self@;
        let ghost t = target@;
        let mut c: usize = 0;
        while c < WIDTH
            invariant
                c <= WIDTH,
                self.wf(),
                target.wf(),
                g == self@,
                t == target@,
                forall|w: int| 0 <= w < c ==> !#[trigger] col_rejects(g[w], t[w]),
            decreases WIDTH - c,
        {
            let hs = self.height(c);
            let ht = target.height(c);
            proof {
                lemma_col_height(g, c as int);
            }
            if hs > ht {
                assert(col_rejects(g[c as int], t[c as int]));
                return true;
            }
            if hs == ht {
                let mut r: usize = 0;
                while r < hs
                    invariant
                        c < WIDTH,
                        r <= hs,
                        hs == col_height(g[c as int]),
                        hs == col_height(t[c as int]),
                        hs <= HEIGHT,
                        self.wf(),
                        target.wf(),
                        g == self@,
                        t == target@,
                        forall|j: int| 0 <= j < r ==> g[c as int][j] == t[c as int][j],
                    decreases hs - r,
                {
                    let a = self.0[c][r];
                    let b = target.0[c][r];
                    assert(a == g[c as int][r as int]);
                    assert(b == t[c as int][r as int]);
                    if a != b {
                        assert(col_rejects(g[c as int], t[c as int]));
                        return true;
                    }
                    r += 1;
                }
            }
            c += 1;
        }
        false
    }

    /// Whether the two boards are one position: equal, or mirrors of each other.
    pub fn same_position(&self, other: &Board) -> (r: bool)
        requires
            self.wf(),
            other.wf(),
        ensures
            r == (canon(self@) == canon(other@)),
    {
        let a = self.canonical().code();
        let b = other.canonical().code();
        proof {
            if a == b {
                lemma_canon_code(self@, other@);
            }
        }
        a == b
    }

    /// Whether the board has `WIDTH` columns of `HEIGHT` cells with no piece over an empty
    /// cell.
    pub fn is_valid(&self) -> (r: bool)
        ensures
            r == self.wf(),
    {
        if self.0.len() != WIDTH {
            return false;
        }
        let mut c: usize = 0;
        while c < WIDTH
            invariant
                c <= WIDTH,
                self.0@.len() == WIDTH,
                forall|x: int| 0 <= x < c ==> (#[trigger] self@[x]).len() == HEIGHT,
            decreases WIDTH - c,
        {
            if self.0[c].len() != HEIGHT {
                assert(self@[c as int].len() != HEIGHT);
                return false;
            }
            c += 1;
        }
        let ghost g = self@;
        assert(shaped(g));
        let mut c: usize = 0;
        while c < WIDTH
            invariant
                c <= WIDTH,
                g == self@,
                shaped(g),
                forall|x: int, r: int|
                    0 <= x < c && 0 <= r < HEIGHT ==> (#[trigger] g[x][r] != Player::Empty <==> r < col_height(
                        g[x],
                    )),
            decreases WIDTH - c,
        {
            let mut h: usize = 0;
            while h < HEIGHT && self.0[c][h] != Player::Empty
                invariant
                    c < WIDTH,
                    h <= HEIGHT,
                    g == self@,
                    shaped(g),
                    forall|j: int| 0 <= j < h ==> g[c as int][j] != Player::Empty,
                decreases HEIGHT - h,
            {
                h += 1;
            }
            proof {
                lemma_height_is(g[c as int], h as int);
            }
            let mut y: usize = h;
            while y < HEIGHT
                invariant
                    c < WIDTH,
                    h <= y <= HEIGHT,
                    g == self@,
                    shaped(g),
                    col_height(g[c as int]) == h,
                    forall|j: int| h <= j < y ==> g[c as int][j] == Player::Empty,
                decreases HEIGHT - y,
            {
                if self.0[c][y] != Player::Empty {
                    assert(g[c as int][y as int] != Player::Empty);
                    assert(!settled(g));
                    return false;
                }
                y += 1;
            }
            c += 1;
        }
        true
    }

    /// Whether this board is smaller than its mirror in the lexicographic order.
    fn below_mirror(&self) -> (r: bool)
        requires
            self.wf(),
        ensures
            r == grid_less(self@, mirror(self@)),
    {
        let ghost g = self@;
        let ghost m = mirror(g);
        let mut c: usize = 0;
        while c < WIDTH
            invariant
                c <= WIDTH,
                g == self@,
                m == mirror(g),
                valid_grid(g),
                forall|j: int| 0 <= j < c ==> g[j] == m[j],
            decreases WIDTH - c,
        {
            let mut r: usize = 0;
            while r < HEIGHT
                invariant
                    c < WIDTH,
                    r <= HEIGHT,
                    g == self@,
                    m == mirror(g),
                    valid_grid(g),
                    forall|j: int| 0 <= j < c ==> g[j] == m[j],
                    forall|i: int| 0 <= i < r ==> g[c as int][i] == m[c as int][i],
                decreases HEIGHT - r,
            {
                let a = self.0[c][r];
                let b = self.0[WIDTH - 1 - c][r];
                assert(a == g[c as int][r as int]);
                assert(b == m[c as int][r as int]);
                if a != b {
                    let less = rank_of(a) < rank_of(b);
                    proof {
                        if less {
                            assert(col_less(g[c as int], m[c as int]));
                            assert(grid_less(g, m));
                        } else {
                            assert(!col_less(g[c as int], m[c as int])) by {
                                if col_less(g[c as int], m[c as int]) {
                                    let k = choose|k: int|
                                        0 <= k < g[c as int].len() && k < m[c as int].len() && (forall|j: int|
                                            0 <= j < k ==> g[c as int][j] == m[c as int][j]) && rank(
                                            #[trigger] g[c as int][k],
                                        ) < rank(m[c as int][k]);
                                    assert(k == r);
                                }
                            }
                            assert(!grid_less(g, m)) by {
                                if grid_less(g, m) {
                                    let k = choose|k: int|
                                        0 <= k < g.len() && k < m.len() && (forall|j: int|
                                            0 <= j < k ==> g[j] == m[j]) && #[trigger] col_less(
                                            g[k],
                                            m[k],
                                        );
                                    if k < c {
                                        assert(g[k] == m[k]);
                                    } else if k > c {
                                        assert(g[c as int] == m[c as int]);
                                    }
                                }
                            }
                        }
                    }
                    return less;
                }
                r += 1;
            }
            proof {
                assert(g[c as int] =~= m[c as int]);
            }
            c += 1;
        }
        proof {
            assert(g =~= m);
            if grid_less(g, m) {
                let k = choose|k: int|
                    0 <= k < g.len() && k < m.len() && (forall|j: int| 0 <= j < k ==> g[j] == m[j])
                        && #[trigger] col_less(g[k], m[k]);
                assert(!col_less(g[k], g[k]));
            }
        }
        false
    }
}

} // verus!
