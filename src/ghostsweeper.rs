use vstd::prelude::*;
use crate::random::range;

verus! {

/// A cell of the grid as (column, row), both zero-based.
pub type Position = (usize, usize);

/// What opening a cell revealed.
#[derive(Debug, Clone, Copy, PartialEq, Eq, Structural)]
pub enum OpenResult {
    Mine,
    NoMine(u8),
}

/// What a cell shows to the player.
#[derive(Debug, Clone, Copy, PartialEq, Eq, Structural)]
pub enum Cell {
    Covered,
    Flagged,
    Mine,
    /// An opened safe cell, with the number of mines around it.
    Count(u8),
}

/// Inputs that the engine refuses.
#[derive(Debug, Clone, Copy, PartialEq, Eq, Structural)]
pub enum GameError {
    /// The grid is empty or too large, or it cannot hold one safe cell.
    InvalidConfiguration,
    /// A position outside the grid.
    OutOfBounds,
}

/// Number of `true` entries of a sequence.
pub open spec fn count_true(s: Seq<bool>) -> nat
    decreases s.len(),
{
    if s.len() == 0 {
        0
    } else {
        count_true(s.drop_last()) + if s.last() { 1nat } else { 0nat }
    }
}

pub proof fn lemma_count_true_le(s: Seq<bool>)
    ensures
        count_true(s) <= s.len(),
    decreases s.len(),
{
    if s.len() > 0 {
        lemma_count_true_le(s.drop_last());
    }
}

pub proof fn lemma_count_true_none(s: Seq<bool>)
    requires
        forall|i: int| 0 <= i < s.len() ==> !s[i],
    ensures
        count_true(s) == 0,
    decreases s.len(),
{
    if s.len() > 0 {
        lemma_count_true_none(s.drop_last());
    }
}

pub proof fn lemma_count_true_update(s: Seq<bool>, i: int, b: bool)
    requires
        0 <= i < s.len(),
    ensures
        count_true(s.update(i, b)) == count_true(s) - (if s[i] { 1int } else { 0int }) + (if b {
            1int
        } else {
            0int
        }),
    decreases s.len(),
{
    let t = s.update(i, b);
    if i == s.len() - 1 {
        assert(t.drop_last() =~= s.drop_last());
    } else {
        assert(t.drop_last() =~= s.drop_last().update(i, b));
        lemma_count_true_update(s.drop_last(), i, b);
    }
}

/// Two grids with no entry `true` in both have at most as many `true`
/// entries together as entries, and exactly as many only when every entry is
/// `true` in one of them.
pub proof fn lemma_count_true_disjoint(a: Seq<bool>, b: Seq<bool>)
    requires
        a.len() == b.len(),
        forall|i: int| 0 <= i < a.len() ==> !(a[i] && b[i]),
    ensures
        count_true(a) + count_true(b) <= a.len(),
        count_true(a) + count_true(b) == a.len() ==> forall|i: int|
            0 <= i < a.len() ==> a[i] || b[i],
    decreases a.len(),
{
    if a.len() > 0 {
        let (a1, b1) = (a.drop_last(), b.drop_last());
        lemma_count_true_disjoint(a1, b1);
        if count_true(a) + count_true(b) == a.len() {
            assert forall|i: int| 0 <= i < a.len() implies a[i] || b[i] by {
                if i < a.len() - 1 {
                    assert(a1[i] == a[i] && b1[i] == b[i]);
                }
            };
        }
    }
}

/// The candidate at offset slot `k` (0..9, row by row, slot 4 being the cell
/// itself) around `p`, when it lies inside a `w` by `h` grid.
pub open spec fn candidate(w: nat, h: nat, p: Position, k: int) -> Option<Position> {
    let x = p.0 + k % 3 - 1;
    let y = p.1 + k / 3 - 1;
    if k != 4 && 0 <= x < w && 0 <= y < h {
        Some((x as usize, y as usize))
    } else {
        None
    }
}

/// The in-bounds candidates of the first `k` slots around `p`, in slot order.
pub open spec fn neighbors_upto(w: nat, h: nat, p: Position, k: nat) -> Seq<Position>
    decreases k,
{
    if k == 0 {
        Seq::empty()
    } else {
        let s = neighbors_upto(w, h, p, (k - 1) as nat);
        match candidate(w, h, p, k - 1) {
            Some(q) => s.push(q),
            None => s,
        }
    }
}

/// The in-bounds cells around `p` (up to eight), in a fixed order.
pub open spec fn neighbors(w: nat, h: nat, p: Position) -> Seq<Position> {
    neighbors_upto(w, h, p, 9)
}

proof fn lemma_neighbors_upto(w: nat, h: nat, p: Position, k: nat)
    requires
        k <= 9,
    ensures
        neighbors_upto(w, h, p, k).len() <= k,
        k >= 5 ==> neighbors_upto(w, h, p, k).len() <= k - 1,
        forall|j: int|
            0 <= j < neighbors_upto(w, h, p, k).len() ==> {
                let q = #[trigger] neighbors_upto(w, h, p, k)[j];
                q.0 < w && q.1 < h
            },
    decreases k,
{
    if k > 0 {
        lemma_neighbors_upto(w, h, p, (k - 1) as nat);
        assert(candidate(w, h, p, 4) is None);
    }
}

pub proof fn lemma_index_bound(w: nat, h: nat, x: nat, y: nat)
    requires
        x < w,
        y < h,
    ensures
        y * w + x < w * h,
{
    assert(y * w + x < w * h) by (nonlinear_arith)
        requires
            x < w,
            y < h,
    ;
}

pub proof fn lemma_index_injective(w: nat, x1: nat, y1: nat, x2: nat, y2: nat)
    requires
        x1 < w,
        x2 < w,
        y1 * w + x1 == y2 * w + x2,
    ensures
        x1 == x2,
        y1 == y2,
{
    if y1 < y2 {
        assert((y1 + 1) * w <= y2 * w) by (nonlinear_arith)
            requires
                y1 < y2,
        ;
        assert(false) by (nonlinear_arith)
            requires
                (y1 + 1) * w <= y2 * w,
                y1 * w + x1 == y2 * w + x2,
                x1 < w,
        ;
    } else if y2 < y1 {
        assert((y2 + 1) * w <= y1 * w) by (nonlinear_arith)
            requires
                y2 < y1,
        ;
        assert(false) by (nonlinear_arith)
            requires
                (y2 + 1) * w <= y1 * w,
                y1 * w + x1 == y2 * w + x2,
                x2 < w,
        ;
    }
}

/// How many of the cells of `s` hold a mine on a `w` by `h` grid whose mines
/// are marked in `mines`.
pub open spec fn mines_among(w: nat, h: nat, mines: Seq<bool>, s: Seq<Position>) -> nat
    decreases s.len(),
{
    if s.len() == 0 {
        0
    } else {
        let q = s.last();
        mines_among(w, h, mines, s.drop_last()) + if q.0 < w && q.1 < h && mines[q.1 * w
            + q.0] {
            1nat
        } else {
            0nat
        }
    }
}

/// The state of a board as mathematical values. Cell `(x, y)` is stored at
/// index `y * width + x` of each of the three grids.
pub ghost struct Board {
    pub width: nat,
    pub height: nat,
    pub mines: Seq<bool>,
    pub opened: Seq<bool>,
    pub flagged: Seq<bool>,
    pub is_over: bool,
    pub is_winner: bool,
}

impl Board {
    pub open spec fn cells(self) -> nat {
        self.width * self.height
    }

    pub open spec fn in_bounds(self, p: Position) -> bool {
        p.0 < self.width && p.1 < self.height
    }

    pub open spec fn index(self, p: Position) -> int {
        p.1 * self.width + p.0
    }

    pub open spec fn is_mine(self, p: Position) -> bool {
        self.in_bounds(p) && self.mines[self.index(p)]
    }

    pub open spec fn is_open(self, p: Position) -> bool {
        self.in_bounds(p) && self.opened[self.index(p)]
    }

    pub open spec fn is_flagged(self, p: Position) -> bool {
        self.in_bounds(p) && self.flagged[self.index(p)]
    }

    pub open spec fn mine_count(self) -> nat {
        count_true(self.mines)
    }

    pub open spec fn open_count(self) -> nat {
        count_true(self.opened)
    }

    pub open spec fn flag_count(self) -> nat {
        count_true(self.flagged)
    }

    /// The cells around `p` that lie inside the grid.
    pub open spec fn neighbors(self, p: Position) -> Seq<Position> {
        neighbors(self.width, self.height, p)
    }

    /// Whether a cell holds a mine, as a predicate.
    pub open spec fn mine_test(self) -> spec_fn(Position) -> bool {
        |q: Position| self.is_mine(q)
    }

    /// How many of the cells of `s` hold a mine.
    pub open spec fn mines_in(self, s: Seq<Position>) -> nat {
        mines_among(self.width, self.height, self.mines, s)
    }

    /// How many of the cells around `p` hold a mine.
    pub open spec fn mine_neighbors(self, p: Position) -> nat {
        self.mines_in(self.neighbors(p))
    }

    /// The cells around `p` are each opened or flagged.
    pub open spec fn surrounded(self, p: Position) -> bool {
        forall|j: int|
            0 <= j < self.neighbors(p).len() ==> {
                let q = #[trigger] self.neighbors(p)[j];
                self.is_open(q) || self.is_flagged(q)
            }
    }

    /// The board differs from `other` at most in which cells are opened and
    /// in its two terminal flags.
    pub open spec fn same_layout(self, other: Board) -> bool {
        &&& self.width == other.width
        &&& self.height == other.height
        &&& self.mines == other.mines
        &&& self.flagged == other.flagged
    }

    /// `q` was closed on this board and is open on `after`.
    pub open spec fn newly_open(self, after: Board, q: Position) -> bool {
        self.in_bounds(q) && after.is_open(q) && !self.is_open(q)
    }

    /// `z` was opened on the way to `after` and has no mine around it, so
    /// opening it spreads to the cells around it.
    pub open spec fn spreads(self, after: Board, z: Position) -> bool {
        self.newly_open(after, z) && self.mine_neighbors(z) == 0
    }

    /// `path` starts at `p` and steps each time to a cell around the one
    /// before, which spreads.
    pub open spec fn is_cascade_path(self, after: Board, p: Position, path: Seq<Position>) -> bool {
        &&& path.len() > 0
        &&& path[0] == p
        &&& forall|i: int|
            0 <= i < path.len() - 1 ==> self.spreads(after, #[trigger] path[i]) && self.neighbors(
                path[i],
            ).contains(path[i + 1])
    }

    /// Some cascade path from `p` ends at `q`.
    pub open spec fn reached(self, after: Board, p: Position, q: Position) -> bool {
        exists|path: Seq<Position>| #[trigger]
            self.is_cascade_path(after, p, path) && path.last() == q
    }

    /// `after` is this board with the cells that opening the safe cell `p`
    /// reveals: `p` itself and, from every revealed cell with no mine around
    /// it, each cell around it that is not flagged. Cells opened before stay
    /// open, and each newly opened cell is unflagged, holds no mine and ends
    /// a path from `p` of such revealed cells: the cells opened are exactly
    /// those that the cascade reaches.
    pub open spec fn cascade(self, after: Board, p: Position) -> bool {
        &&& after.is_open(p)
        &&& forall|q: Position| #[trigger] self.is_open(q) ==> after.is_open(q)
        &&& forall|q: Position|
            #[trigger] self.newly_open(after, q) ==> !self.is_mine(q) && !self.is_flagged(q)
                && self.reached(after, p, q)
        &&& forall|z: Position| #[trigger] self.spreads(after, z) ==> after.surrounded(z)
    }

    /// The board after toggling the flag of `p`: the flag flips when `p` lies
    /// inside the grid, is not open and the game is not over; otherwise the
    /// board stays as it is.
    pub open spec fn toggled(self, p: Position) -> Board {
        if self.in_bounds(p) && !self.is_over && !self.is_open(p) {
            Board { flagged: self.flagged.update(self.index(p), !self.is_flagged(p)), ..self }
        } else {
            self
        }
    }

    pub open spec fn wf(self) -> bool {
        &&& self.width > 0
        &&& self.height > 0
        &&& self.mines.len() == self.cells()
        &&& self.opened.len() == self.cells()
        &&& self.flagged.len() == self.cells()
        &&& forall|i: int| 0 <= i < self.cells() ==> !(self.opened[i] && self.flagged[i])
        &&& self.mine_count() < self.cells()
        &&& self.is_winner ==> self.is_over
        &&& self.is_winner ==> self.open_count() == self.cells() - self.mine_count()
        &&& !self.is_over || self.is_winner ==> forall|i: int|
            0 <= i < self.cells() ==> !(self.opened[i] && self.mines[i])
    }
}

pub proof fn lemma_mines_in_zero(b: Board, s: Seq<Position>, j: int)
    requires
        b.mines_in(s) == 0,
        0 <= j < s.len(),
    ensures
        !b.is_mine(s[j]),
    decreases s.len(),
{
    if j < s.len() - 1 {
        lemma_mines_in_zero(b, s.drop_last(), j);
    }
}

/// Opening `r` changes whether a cell is open for `r` alone.
pub proof fn lemma_open_cell(b: Board, r: Position)
    requires
        b.wf(),
        b.in_bounds(r),
    ensures
        forall|q: Position|
            b.in_bounds(q) ==> #[trigger] (Board {
                opened: b.opened.update(b.index(r), true),
                ..b
            }).is_open(q) == (q == r || b.is_open(q)),
{
    let b2 = Board { opened: b.opened.update(b.index(r), true), ..b };
    assert forall|q: Position| b.in_bounds(q) implies #[trigger] b2.is_open(q) == (q == r
        || b.is_open(q)) by {
        lemma_index_bound(b.width, b.height, q.0 as nat, q.1 as nat);
        lemma_index_bound(b.width, b.height, r.0 as nat, r.1 as nat);
        if q != r && b.index(q) == b.index(r) {
            lemma_index_injective(b.width, q.0 as nat, q.1 as nat, r.0 as nat, r.1 as nat);
        }
    };
}

/// A won game has every cell without a mine open, and no mine open.
pub proof fn lemma_win_opens_every_safe_cell(b: Board)
    requires
        b.wf(),
        b.is_winner,
    ensures
        forall|p: Position| #[trigger] b.in_bounds(p) ==> (b.is_open(p) <==> !b.is_mine(p)),
{
    lemma_count_true_disjoint(b.opened, b.mines);
    assert forall|p: Position| #[trigger] b.in_bounds(p) implies (b.is_open(p) <==> !b.is_mine(
        p,
    )) by {
        lemma_index_bound(b.width, b.height, p.0 as nat, p.1 as nat);
    };
}

/// A cascade path stays one while more cells open.
proof fn lemma_path_grows(o: Board, b1: Board, b2: Board, p: Position, path: Seq<Position>)
    requires
        o.is_cascade_path(b1, p, path),
        forall|z: Position| #[trigger] o.newly_open(b1, z) ==> o.newly_open(b2, z),
    ensures
        o.is_cascade_path(b2, p, path),
{
    assert forall|i: int| 0 <= i < path.len() - 1 implies o.spreads(b2, #[trigger] path[i])
        && o.neighbors(path[i]).contains(path[i + 1]) by {
        assert(o.spreads(b1, path[i]));
    };
}

/// After the cascade from `p`, every cell at the end of a chain from `p` of
/// neighboring cells, none flagged nor open before, where each cell but the
/// last has no mine around it, is open: the whole connected region without
/// mines around it, and the cells that border it. None of them is a mine but
/// possibly `p`.
pub proof fn lemma_cascade_opens_region(o: Board, after: Board, p: Position, path: Seq<Position>)
    requires
        o.cascade(after, p),
        after.same_layout(o),
        path.len() > 0,
        path[0] == p,
        forall|i: int|
            0 <= i < path.len() ==> o.in_bounds(#[trigger] path[i]) && !o.is_flagged(path[i])
                && !o.is_open(path[i]),
        forall|i: int|
            0 <= i < path.len() - 1 ==> o.mine_neighbors(#[trigger] path[i]) == 0
                && o.neighbors(path[i]).contains(path[i + 1]),
    ensures
        forall|i: int| 0 <= i < path.len() ==> after.is_open(#[trigger] path[i]),
        forall|i: int| 1 <= i < path.len() ==> !o.is_mine(#[trigger] path[i]),
    decreases path.len(),
{
    if path.len() > 1 {
        let front = path.drop_last();
        lemma_cascade_opens_region(o, after, p, front);
        let n = path.len() - 1;
        assert(front[n - 1] == path[n - 1]);
        assert(after.is_open(path[n - 1]));
        assert(o.spreads(after, path[n - 1]));
        assert(after.surrounded(path[n - 1]));
        let nb = o.neighbors(path[n - 1]);
        assert(nb.contains(path[n]));
        let j = choose|j: int| 0 <= j < nb.len() && nb[j] == path[n];
        assert(after.neighbors(path[n - 1])[j] == path[n]);
        assert(!after.is_flagged(path[n]));
        assert forall|i: int| 0 <= i < path.len() implies after.is_open(#[trigger] path[i]) by {
            if i < n {
                assert(front[i] == path[i]);
            }
        };
        assert forall|i: int| 1 <= i < path.len() implies !o.is_mine(#[trigger] path[i]) by {
            if i < n {
                assert(front[i] == path[i]);
            } else {
                assert(o.newly_open(after, path[i]));
            }
        };
    }
}

/// Toggling the same flag twice gives the board back, and toggling it once
/// on a closed cell of a running game adds or removes exactly one flag.
pub proof fn lemma_toggle_flag_twice(b: Board, p: Position)
    requires
        b.wf(),
    ensures
        b.toggled(p).toggled(p) == b,
        b.in_bounds(p) && !b.is_over && !b.is_open(p) ==> b.toggled(p).flag_count() == if b.is_flagged(
            p,
        ) {
            b.flag_count() - 1
        } else {
            b.flag_count() + 1int
        },
{
    if b.in_bounds(p) && !b.is_over && !b.is_open(p) {
        lemma_index_bound(b.width, b.height, p.0 as nat, p.1 as nat);
        let i = b.index(p);
        lemma_count_true_update(b.flagged, i, !b.flagged[i]);
        assert(b.toggled(p).flagged.update(i, b.flagged[i]) =~= b.flagged);
    }
}

/// The decimal digit `d` as a character.
pub open spec fn digit(d: nat) -> char {
    if d == 0 { '0' } else if d == 1 { '1' } else if d == 2 { '2' } else if d == 3 { '3' }
    else if d == 4 { '4' } else if d == 5 { '5' } else if d == 6 { '6' } else if d == 7 { '7' }
    else if d == 8 { '8' } else { '9' }
}

/// `n` written in decimal.
pub open spec fn decimal(n: nat) -> Seq<char>
    decreases n,
{
    if n < 10 {
        seq![digit(n)]
    } else {
        decimal(n / 10).push(digit(n % 10))
    }
}

/// The column numbers, from one, of the first `k` columns.
pub open spec fn header_upto(k: nat) -> Seq<char>
    decreases k,
{
    if k == 0 {
        Seq::empty()
    } else {
        let lead = if k == 1 { seq![' ', ' ', ' ', '\t'] } else { Seq::empty() };
        header_upto((k - 1) as nat) + lead + decimal(k) + seq![' ', ' ']
    }
}

impl Board {
    /// How the cell `p` is drawn: a covered square, a flag, a ghost for an
    /// opened mine, or the number of mines around an opened safe cell.
    pub open spec fn glyph(self, p: Position) -> Seq<char> {
        if !self.is_open(p) {
            if self.is_flagged(p) { seq!['\u{1F6A9}', ' '] } else { seq!['\u{1F7E6}', ' '] }
        } else if self.is_mine(p) {
            seq!['\u{1F47B}', ' ']
        } else {
            decimal(self.mine_neighbors(p)) + seq![' ', ' ']
        }
    }

    /// Row `y`, numbered from one, with its first `k` cells.
    pub open spec fn row_upto(self, y: nat, k: nat) -> Seq<char>
        decreases k,
    {
        if k == 0 {
            decimal(y + 1) + seq![' ', '\t']
        } else {
            self.row_upto(y, (k - 1) as nat) + self.glyph(((k - 1) as usize, y as usize))
        }
    }

    /// The header and the first `k` rows, each ending in a line break.
    pub open spec fn rows_upto(self, k: nat) -> Seq<char>
        decreases k,
    {
        if k == 0 {
            header_upto(self.width) + seq!['\n', '\n', '\n']
        } else {
            self.rows_upto((k - 1) as nat) + self.row_upto((k - 1) as nat, self.width) + seq!['\n']
        }
    }

    /// The board as text: a header of column numbers, then each row with its
    /// number and its cells.
    pub open spec fn rendering(self) -> Seq<char> {
        self.rows_upto(self.height)
    }
}

fn digit_str(d: usize) -> (r: &'static str)
    requires
        d < 10,
    ensures
        r@ == seq![digit(d as nat)],
{
    proof {
        reveal_strlit("0");
        reveal_strlit("1");
        reveal_strlit("2");
        reveal_strlit("3");
        reveal_strlit("4");
        reveal_strlit("5");
        reveal_strlit("6");
        reveal_strlit("7");
        reveal_strlit("8");
        reveal_strlit("9");
    }
    if d == 0 {
        "0"
    } else if d == 1 {
        "1"
    } else if d == 2 {
        "2"
    } else if d == 3 {
        "3"
    } else if d == 4 {
        "4"
    } else if d == 5 {
        "5"
    } else if d == 6 {
        "6"
    } else if d == 7 {
        "7"
    } else if d == 8 {
        "8"
    } else {
        "9"
    }
}

/// Appends `n` in decimal to `out`.
fn push_decimal(out: &mut String, n: usize)
    ensures
        final(out)@ == old(out)@ + decimal(n as nat),
    decreases n,
{
    if n >= 10 {
        push_decimal(out, n / 10);
    }
    out.append(digit_str(n % 10));
    assert(out@ =~= old(out)@ + decimal(n as nat));
}

/// A minesweeper board whose mines are hidden among the cells.
pub struct Ghostsweeper {
    width: usize,
    height: usize,
    mines: Vec<bool>,
    open_fields: Vec<bool>,
    flagged_fields: Vec<bool>,
    num_mines: usize,
    num_open: usize,
    num_flagged: usize,
    is_over: bool,
    is_winner: bool,
}

impl View for Ghostsweeper {
    type V = Board;

    closed spec fn view(&self) -> Board {
        Board {
            width: self.width as nat,
            height: self.height as nat,
            mines: self.mines@,
            opened: self.open_fields@,
            flagged: self.flagged_fields@,
            is_over: self.is_over,
            is_winner: self.is_winner,
        }
    }
}

impl Ghostsweeper {
    pub closed spec fn wf(&self) -> bool {
        &&& self@.wf()
        &&& self.width * self.height <= usize::MAX
        &&& self.num_mines == self@.mine_count()
        &&& self.num_open == self@.open_count()
        &&& self.num_flagged == self@.flag_count()
    }

    /// A well-formed board has a well-formed view, whose grid fits in memory.
    pub proof fn lemma_view_wf(&self)
        requires
            self.wf(),
        ensures
            self@.wf(),
            self@.cells() <= usize::MAX,
    {
    }

    pub fn is_over(&self) -> (r: bool)
        ensures
            r == self@.is_over,
    {
        self.is_over
    }

    pub fn is_winner(&self) -> (r: bool)
        ensures
            r == self@.is_winner,
    {
        self.is_winner
    }

    pub fn width(&self) -> (r: usize)
        ensures
            r == self@.width,
    {
        self.width
    }

    pub fn height(&self) -> (r: usize)
        ensures
            r == self@.height,
    {
        self.height
    }

    /// Number of mines on the board.
    pub fn mine_count(&self) -> (r: usize)
        requires
            self.wf(),
        ensures
            r == self@.mine_count(),
    {
        self.num_mines
    }

    /// Number of opened cells.
    pub fn open_count(&self) -> (r: usize)
        requires
            self.wf(),
        ensures
            r == self@.open_count(),
    {
        self.num_open
    }

    /// Number of flagged cells.
    pub fn flag_count(&self) -> (r: usize)
        requires
            self.wf(),
        ensures
            r == self@.flag_count(),
    {
        self.num_flagged
    }

    fn index(&self, p: Position) -> (r: usize)
        requires
            self.wf(),
            self@.in_bounds(p),
        ensures
            r == self@.index(p),
            r < self@.cells(),
    {
        proof {
            lemma_index_bound(self.width as nat, self.height as nat, p.0 as nat, p.1 as nat);
        }
        p.1 * self.width + p.0
    }

    /// The neighbor at slot `k` of `p`, if it lies inside the grid.
    fn candidate(&self, p: Position, k: usize) -> (r: Option<Position>)
        requires
            self@.in_bounds(p),
            k < 9,
        ensures
            r == candidate(self@.width, self@.height, p, k as int),
    {
        if k == 4 {
            return None;
        }
        let dx = k % 3;
        let dy = k / 3;
        let x = if dx == 0 {
            if p.0 == 0 {
                return None;
            }
            p.0 - 1
        } else if dx == 1 {
            p.0
        } else {
            if p.0 + 1 >= self.width {
                return None;
            }
            p.0 + 1
        };
        let y = if dy == 0 {
            if p.1 == 0 {
                return None;
            }
            p.1 - 1
        } else if dy == 1 {
            p.1
        } else {
            if p.1 + 1 >= self.height {
                return None;
            }
            p.1 + 1
        };
        Some((x, y))
    }

    /// The cells around `p` that lie inside the grid.
    fn get_neighbors(&self, p: Position) -> (r: Vec<Position>)
        requires
            self@.in_bounds(p),
        ensures
            r@ == self@.neighbors(p),
            r@.len() <= 8,
    {
        let mut r: Vec<Position> = Vec::new();
        let mut k: usize = 0;
        while k < 9
            invariant
                k <= 9,
                self@.in_bounds(p),
                r@ == neighbors_upto(self@.width, self@.height, p, k as nat),
            decreases 9 - k,
        {
            if let Some(q) = self.candidate(p, k) {
                r.push(q);
            }
            k = k + 1;
        }
        proof {
            lemma_neighbors_upto(self@.width, self@.height, p, 9);
        }
        r
    }

    /// The cells around `p` that hold a mine.
    fn get_neighbor_mines(&self, p: Position) -> (r: Vec<Position>)
        requires
            self.wf(),
            self@.in_bounds(p),
        ensures
            r@ == self@.neighbors(p).filter(self@.mine_test()),
            r@.len() == self@.mine_neighbors(p),
            r@.len() <= 8,
    {
        let nbrs = self.get_neighbors(p);
        proof {
            lemma_neighbors_upto(self@.width, self@.height, p, 9);
        }
        let mut r: Vec<Position> = Vec::new();
        proof {
            reveal(Seq::filter);
            assert(nbrs@.take(0).filter(self@.mine_test()) =~= Seq::<Position>::empty());
        }
        let mut i: usize = 0;
        while i < nbrs.len()
            invariant
                self.wf(),
                i <= nbrs@.len(),
                nbrs@ == self@.neighbors(p),
                forall|j: int|
                    0 <= j < nbrs@.len() ==> #[trigger] self@.in_bounds(nbrs@[j]),
                r@ == nbrs@.take(i as int).filter(self@.mine_test()),
                r@.len() == self@.mines_in(nbrs@.take(i as int)),
                r@.len() <= i,
            decreases nbrs.len() - i,
        {
            let q = nbrs[i];
            assert(nbrs@.take(i + 1).drop_last() =~= nbrs@.take(i as int));
            assert(self@.in_bounds(nbrs@[i as int]));
            let k = self.index(q);
            let ghost prev = nbrs@.take(i as int);
            let ghost next = nbrs@.take(i + 1);
            proof {
                let f = self@.mine_test();
                reveal(Seq::filter);
                assert(next.drop_last() =~= prev);
                assert(next.last() == q);
                assert(f(q) == self@.is_mine(q));
                assert(next.filter(f) == if f(next.last()) {
                    next.drop_last().filter(f).push(next.last())
                } else {
                    next.drop_last().filter(f)
                });
            }
            if self.mines[k] {
                r.push(q);
            }
            i = i + 1;
        }
        assert(nbrs@.take(i as int) =~= nbrs@);
        r
    }

    /// Opens the cell `p`. Nothing happens when the game is over or `p` is
    /// flagged or already open. A mine ends the game as a loss. A safe cell
    /// reports how many mines lie around it, and when none does, the cells
    /// around it are opened in turn, and so on outward.
    pub fn open(&mut self, p: Position) -> (r: Result<Option<OpenResult>, GameError>)
        requires
            old(self).wf(),
        ensures
            final(self).wf(),
            final(self)@.same_layout(old(self)@),
            !old(self)@.in_bounds(p) ==> r == Err::<Option<OpenResult>, GameError>(
                GameError::OutOfBounds,
            ) && final(self)@ == old(self)@,
            old(self)@.in_bounds(p) && (old(self)@.is_over || old(self)@.is_flagged(p)
                || old(self)@.is_open(p)) ==> r == Ok::<Option<OpenResult>, GameError>(None)
                && final(self)@ == old(self)@,
            old(self)@.in_bounds(p) && !old(self)@.is_over && !old(self)@.is_flagged(p)
                && !old(self)@.is_open(p) && old(self)@.is_mine(p) ==> r == Ok::<
                Option<OpenResult>,
                GameError,
            >(Some(OpenResult::Mine)) && final(self)@ == (Board {
                opened: old(self)@.opened.update(old(self)@.index(p), true),
                is_over: true,
                ..old(self)@
            }),
            old(self)@.in_bounds(p) && !old(self)@.is_over && !old(self)@.is_flagged(p)
                && !old(self)@.is_open(p) && !old(self)@.is_mine(p) ==> r == Ok::<
                Option<OpenResult>,
                GameError,
            >(Some(OpenResult::NoMine(old(self)@.mine_neighbors(p) as u8)))
                && !final(self)@.is_over && !final(self)@.is_winner
                && old(self)@.cascade(final(self)@, p),
    {
        if p.0 >= self.width || p.1 >= self.height {
            return Err(GameError::OutOfBounds);
        }
        if self.is_over {
            return Ok(None);
        }
        let k = self.index(p);
        if self.flagged_fields[k] || self.open_fields[k] {
            return Ok(None);
        }
        let ghost o = self@;
        proof {
            lemma_open_cell(self@, p);
            lemma_count_true_update(self.open_fields@, k as int, true);
            lemma_count_true_le(self.open_fields@.update(k as int, true));
        }
        self.open_fields.set(k, true);
        self.num_open = self.num_open + 1;
        if self.mines[k] {
            self.is_over = true;
            return Ok(Some(OpenResult::Mine));
        }
        let count = self.get_neighbor_mines(p).len() as u8;
        if count == 0 {
            self.reveal_from(p, Ghost(o));
        } else {
            assert(o.is_cascade_path(self@, p, seq![p]));
        }
        Ok(Some(OpenResult::NoMine(count)))
    }

    /// Opens, from the safe cell `p` with no mine around it, every cell that
    /// the cascade reaches.
    fn reveal_from(&mut self, p: Position, Ghost(o): Ghost<Board>)
        requires
            old(self).wf(),
            old(self)@.same_layout(o),
            !old(self)@.is_over,
            !old(self)@.is_winner,
            o.wf(),
            !o.is_over,
            o.in_bounds(p),
            !o.is_mine(p),
            !o.is_flagged(p),
            o.spreads(old(self)@, p),
            forall|q: Position| #[trigger] o.is_open(q) ==> old(self)@.is_open(q),
            forall|q: Position|
                #[trigger] o.newly_open(old(self)@, q) ==> q == p,
        ensures
            final(self).wf(),
            final(self)@.same_layout(o),
            !final(self)@.is_over,
            !final(self)@.is_winner,
            o.cascade(final(self)@, p),
    {
        let mut stack: Vec<Position> = Vec::new();
        stack.push(p);
        proof {
            lemma_count_true_le(self.open_fields@);
            assert(stack@[0] == p);
            assert(o.is_cascade_path(self@, p, seq![p]));
        }
        while stack.len() > 0
            invariant
                self.wf(),
                self@.same_layout(o),
                !self@.is_over,
                !self@.is_winner,
                o.wf(),
                o.in_bounds(p),
                self@.is_open(p),
                !o.is_mine(p),
                !o.is_flagged(p),
                self.num_open <= self@.cells(),
                forall|q: Position| #[trigger] o.is_open(q) ==> self@.is_open(q),
                forall|q: Position|
                    #[trigger] o.newly_open(self@, q) ==> !o.is_mine(q) && !o.is_flagged(q)
                        && o.reached(self@, p, q),
                forall|j: int|
                    0 <= j < stack@.len() ==> o.spreads(self@, #[trigger] stack@[j]),
                forall|z: Position|
                    #[trigger] o.spreads(self@, z) ==> self@.surrounded(z) || stack@.contains(z),
            decreases 2 * (self@.cells() - self.num_open) + stack@.len(),
        {
            let ghost full = stack@;
            let c = stack.pop().unwrap();
            proof {
                assert forall|z: Position| #[trigger]
                    o.spreads(self@, z) implies z == c || self@.surrounded(z)
                    || stack@.contains(z) by {
                    if !self@.surrounded(z) {
                        let w = choose|w: int| 0 <= w < full.len() && full[w] == z;
                        if w < full.len() - 1 {
                            assert(stack@[w] == z);
                        }
                    }
                };
            }
            let nbrs = self.get_neighbors(c);
            proof {
                lemma_neighbors_upto(self@.width, self@.height, c, 9);
            }
            let ghost bound = 2 * (self@.cells() - self.num_open) + stack@.len();
            let mut i: usize = 0;
            while i < nbrs.len()
                invariant
                    self.wf(),
                    self@.same_layout(o),
                    !self@.is_over,
                    !self@.is_winner,
                    o.wf(),
                    o.in_bounds(p),
                    self@.is_open(p),
                    !o.is_mine(p),
                    !o.is_flagged(p),
                    self.num_open <= self@.cells(),
                    2 * (self@.cells() - self.num_open) + stack@.len() <= bound,
                    i <= nbrs@.len(),
                    nbrs@ == o.neighbors(c),
                    o.spreads(self@, c),
                    forall|j: int|
                        0 <= j < nbrs@.len() ==> #[trigger] o.in_bounds(nbrs@[j]),
                    forall|j: int|
                        0 <= j < i ==> self@.is_open(#[trigger] nbrs@[j]) || self@.is_flagged(
                            nbrs@[j],
                        ),
                    forall|q: Position| #[trigger] o.is_open(q) ==> self@.is_open(q),
                    forall|q: Position|
                        #[trigger] o.newly_open(self@, q) ==> !o.is_mine(q) && !o.is_flagged(q)
                            && o.reached(self@, p, q),
                    forall|j: int|
                        0 <= j < stack@.len() ==> o.spreads(self@, #[trigger] stack@[j]),
                    forall|z: Position|
                        #[trigger] o.spreads(self@, z) ==> z == c || self@.surrounded(z)
                            || stack@.contains(z),
                decreases nbrs.len() - i,
            {
                let q = nbrs[i];
                assert(o.in_bounds(nbrs@[i as int]));
                let k = self.index(q);
                if !self.open_fields[k] && !self.flagged_fields[k] {
                    let ghost before = self@;
                    let ghost before_stack = stack@;
                    proof {
                        lemma_open_cell(self@, q);
                        lemma_mines_in_zero(o, nbrs@, i as int);
                        lemma_count_true_update(self.open_fields@, k as int, true);
                        lemma_count_true_le(self.open_fields@.update(k as int, true));
                    }
                    self.open_fields.set(k, true);
                    self.num_open = self.num_open + 1;
                    let count = self.get_neighbor_mines(q).len();
                    if count == 0 {
                        stack.push(q);
                    }
                    proof {
                        assert(self@ == (Board {
                            opened: before.opened.update(before.index(q), true),
                            ..before
                        }));
                        assert forall|z: Position| #[trigger]
                            o.newly_open(before, z) implies o.newly_open(self@, z) by {
                            assert(before.in_bounds(z));
                        };
                        assert(o.newly_open(before, c));
                        let pc = choose|path: Seq<Position>| #[trigger]
                            o.is_cascade_path(before, p, path) && path.last() == c;
                        lemma_path_grows(o, before, self@, p, pc);
                        let np = pc.push(q);
                        assert(o.neighbors(c)[i as int] == q);
                        assert forall|l: int| 0 <= l < np.len() - 1 implies o.spreads(
                            self@,
                            #[trigger] np[l],
                        ) && o.neighbors(np[l]).contains(np[l + 1]) by {
                            if l < pc.len() - 1 {
                                assert(np[l] == pc[l] && np[l + 1] == pc[l + 1]);
                            }
                        };
                        assert(o.is_cascade_path(self@, p, np));
                        assert(o.reached(self@, p, q));
                        assert forall|y: Position| #[trigger]
                            o.newly_open(self@, y) implies !o.is_mine(y) && !o.is_flagged(y)
                            && o.reached(self@, p, y) by {
                            if y != q {
                                assert(o.newly_open(before, y));
                                let py = choose|path: Seq<Position>| #[trigger]
                                    o.is_cascade_path(before, p, path) && path.last() == y;
                                lemma_path_grows(o, before, self@, p, py);
                            }
                        };
                        assert forall|z: Position| #[trigger]
                            o.spreads(self@, z) implies z == c || self@.surrounded(z)
                            || stack@.contains(z) by {
                            if z == q {
                                assert(stack@[stack@.len() - 1] == q);
                            } else {
                                assert(o.spreads(before, z));
                                if before.surrounded(z) {
                                    assert forall|j: int|
                                        0 <= j < self@.neighbors(z).len() implies {
                                        let y = #[trigger] self@.neighbors(z)[j];
                                        self@.is_open(y) || self@.is_flagged(y)
                                    } by {
                                        lemma_neighbors_upto(o.width, o.height, z, 9);
                                        assert(before.is_open(before.neighbors(z)[j])
                                            || before.is_flagged(before.neighbors(z)[j]));
                                    };
                                } else if z != c {
                                    let w = choose|w: int|
                                        0 <= w < before_stack.len() && before_stack[w] == z;
                                    assert(stack@[w] == z);
                                }
                            }
                        };
                    }
                }
                i = i + 1;
            }
            assert(self@.surrounded(c));
        }
    }

    /// A board of `width` by `height` cells with its mines at `positions`,
    /// nothing opened or flagged, and the game not over. Refused with
    /// `OutOfBounds` when a position lies outside the grid, and with
    /// `InvalidConfiguration` when the grid is empty or too large, when a
    /// position repeats, or when the mines would leave no safe cell.
    pub fn from_mines(width: usize, height: usize, positions: &Vec<Position>) -> (r: Result<
        Ghostsweeper,
        GameError,
    >)
        ensures
            r is Ok <==> width * height <= usize::MAX && positions@.len() < width * height
                && (forall|j: int|
                0 <= j < positions@.len() ==> #[trigger] positions@[j].0 < width
                    && positions@[j].1 < height) && positions@.no_duplicates(),
            r == Err::<Ghostsweeper, GameError>(GameError::OutOfBounds) <==> 0 < width * height
                <= usize::MAX && exists|j: int|
                0 <= j < positions@.len() && !(#[trigger] positions@[j].0 < width
                    && positions@[j].1 < height),
            r matches Ok(g) ==> {
                &&& g.wf()
                &&& g@.width == width
                &&& g@.height == height
                &&& g@.mine_count() == positions@.len()
                &&& forall|q: Position| #[trigger] g@.is_mine(q) <==> positions@.contains(q)
                &&& forall|i: int| 0 <= i < g@.cells() ==> !g@.opened[i] && !g@.flagged[i]
                &&& !g@.is_over
                &&& !g@.is_winner
            },
    {
        let cells = match width.checked_mul(height) {
            Some(c) => c,
            None => {
                return Err(GameError::InvalidConfiguration);
            },
        };
        if cells == 0 {
            return Err(GameError::InvalidConfiguration);
        }
        let mut i: usize = 0;
        while i < positions.len()
            invariant
                i <= positions@.len(),
                cells == width * height,
                cells > 0,
                forall|j: int|
                    0 <= j < i ==> #[trigger] positions@[j].0 < width && positions@[j].1 < height,
            decreases positions.len() - i,
        {
            if positions[i].0 >= width || positions[i].1 >= height {
                assert(!(positions@[i as int].0 < width && positions@[i as int].1 < height));
                return Err(GameError::OutOfBounds);
            }
            i = i + 1;
        }
        assert(width > 0 && height > 0) by (nonlinear_arith)
            requires
                cells == width * height,
                cells > 0,
        ;
        let mut mines: Vec<bool> = Vec::new();
        let mut open_fields: Vec<bool> = Vec::new();
        let mut flagged_fields: Vec<bool> = Vec::new();
        let mut c: usize = 0;
        while c < cells
            invariant
                c <= cells,
                mines@.len() == c,
                open_fields@.len() == c,
                flagged_fields@.len() == c,
                forall|j: int| 0 <= j < c ==> !mines@[j] && !open_fields@[j] && !flagged_fields@[j],
            decreases cells - c,
        {
            mines.push(false);
            open_fields.push(false);
            flagged_fields.push(false);
            c = c + 1;
        }
        proof {
            lemma_count_true_none(mines@);
            lemma_count_true_none(open_fields@);
            lemma_count_true_none(flagged_fields@);
        }
        let mut g = Ghostsweeper {
            width,
            height,
            mines,
            open_fields,
            flagged_fields,
            num_mines: 0,
            num_open: 0,
            num_flagged: 0,
            is_over: false,
            is_winner: false,
        };
        proof {
            assert forall|q: Position| !#[trigger] g@.is_mine(q) by {
                if g@.in_bounds(q) {
                    lemma_index_bound(width as nat, height as nat, q.0 as nat, q.1 as nat);
                }
            };
            assert(positions@.take(0) =~= Seq::<Position>::empty());
        }
        let mut i: usize = 0;
        while i < positions.len()
            invariant
                i <= positions@.len(),
                cells == width * height,
                cells > 0,
                g.width == width,
                g.height == height,
                g.mines@.len() == cells,
                g.open_fields@.len() == cells,
                g.flagged_fields@.len() == cells,
                forall|j: int| 0 <= j < cells ==> !g.open_fields@[j] && !g.flagged_fields@[j],
                count_true(g.open_fields@) == 0,
                count_true(g.flagged_fields@) == 0,
                g.num_open == 0,
                g.num_flagged == 0,
                !g.is_over,
                !g.is_winner,
                forall|j: int|
                    0 <= j < positions@.len() ==> #[trigger] positions@[j].0 < width
                        && positions@[j].1 < height,
                count_true(g.mines@) == i,
                g.num_mines == i,
                positions@.take(i as int).no_duplicates(),
                forall|q: Position|
                    #[trigger] g@.is_mine(q) <==> positions@.take(i as int).contains(q),
            decreases positions.len() - i,
        {
            let q = positions[i];
            assert(g@.in_bounds(q));
            proof {
                lemma_index_bound(width as nat, height as nat, q.0 as nat, q.1 as nat);
            }
            let k = q.1 * width + q.0;
            if g.mines[k] {
                proof {
                    assert(g@.is_mine(q));
                    let j = choose|j: int| 0 <= j < i && positions@.take(i as int)[j] == q;
                    assert(positions@[j] == positions@[i as int]);
                }
                return Err(GameError::InvalidConfiguration);
            }
            let ghost before = g@;
            let ghost prev = positions@.take(i as int);
            proof {
                lemma_count_true_update(g.mines@, k as int, true);
                assert forall|y: Position| #[trigger] before.in_bounds(y) implies (Board {
                    mines: before.mines.update(k as int, true),
                    ..before
                }).is_mine(y) == (y == q || before.is_mine(y)) by {
                    lemma_index_bound(width as nat, height as nat, y.0 as nat, y.1 as nat);
                    if y != q && before.index(y) == k {
                        lemma_index_injective(width as nat, y.0 as nat, y.1 as nat, q.0 as nat, q.1 as nat);
                    }
                };
            }
            g.mines.set(k, true);
            g.num_mines = g.num_mines + 1;
            i = i + 1;
            proof {
                let t = positions@.take(i as int);
                assert(t =~= prev.push(q));
                assert(g@ == (Board { mines: before.mines.update(k as int, true), ..before }));
                assert(!before.is_mine(q));
                assert(!prev.contains(q));
                assert forall|a: int, b: int|
                    0 <= a < t.len() && 0 <= b < t.len() && a != b implies t[a] != t[b] by {
                    if a < prev.len() && b < prev.len() {
                        assert(prev[a] != prev[b]);
                    } else if a < prev.len() {
                        assert(prev[a] == t[a]);
                    } else {
                        assert(prev[b] == t[b]);
                    }
                };
                assert forall|y: Position| #[trigger] g@.is_mine(y) <==> t.contains(y) by {
                    if y == q {
                        assert(t[i - 1] == q);
                    } else if t.contains(y) {
                        let j = choose|j: int| 0 <= j < t.len() && t[j] == y;
                        assert(positions@[j] == y);
                        assert(positions@[j].0 < width && positions@[j].1 < height);
                        assert(prev[j] == y);
                        assert(prev.contains(y));
                        assert(before.is_mine(y));
                        assert(before.in_bounds(y));
                    } else {
                        assert(!prev.contains(y));
                        assert(!before.is_mine(y));
                        if before.in_bounds(y) {
                            assert(!g@.is_mine(y));
                        }
                    }
                };
            }
        }
        assert(positions@.take(i as int) =~= positions@);
        if positions.len() >= cells {
            return Err(GameError::InvalidConfiguration);
        }
        Ok(g)
    }

    /// The board as text, for a player to read.
    pub fn render(&self) -> (r: String)
        requires
            self.wf(),
        ensures
            r@ == self@.rendering(),
    {
        let mut out = String::new();
        let mut i: usize = 0;
        while i < self.width
            invariant
                i <= self.width,
                out@ == header_upto(i as nat),
            decreases self.width - i,
        {
            if i == 0 {
                proof {
                    reveal_strlit("   \t");
                }
                out.append("   \t");
            }
            push_decimal(&mut out, i + 1);
            proof {
                reveal_strlit("  ");
            }
            out.append("  ");
            i = i + 1;
            assert(out@ =~= header_upto(i as nat));
        }
        proof {
            reveal_strlit("\n\n\n");
        }
        out.append("\n\n\n");
        let mut y: usize = 0;
        while y < self.height
            invariant
                self.wf(),
                y <= self.height,
                out@ == self@.rows_upto(y as nat),
            decreases self.height - y,
        {
            let ghost before = out@;
            push_decimal(&mut out, y + 1);
            proof {
                reveal_strlit(" \t");
            }
            out.append(" \t");
            assert(out@ =~= before + self@.row_upto(y as nat, 0));
            let mut x: usize = 0;
            while x < self.width
                invariant
                    self.wf(),
                    x <= self.width,
                    y < self.height,
                    out@ == before + self@.row_upto(y as nat, x as nat),
                decreases self.width - x,
            {
                let ghost mid = out@;
                let p = (x, y);
                let k = self.index(p);
                if !self.open_fields[k] {
                    if self.flagged_fields[k] {
                        proof {
                            reveal_strlit("\u{1F6A9} ");
                        }
                        out.append("\u{1F6A9} ");
                    } else {
                        proof {
                            reveal_strlit("\u{1F7E6} ");
                        }
                        out.append("\u{1F7E6} ");
                    }
                } else if self.mines[k] {
                    proof {
                        reveal_strlit("\u{1F47B} ");
                    }
                    out.append("\u{1F47B} ");
                } else {
                    let n = self.get_neighbor_mines(p).len();
                    push_decimal(&mut out, n);
                    proof {
                        reveal_strlit("  ");
                    }
                    out.append("  ");
                }
                assert(out@ =~= mid + self@.glyph(p));
                x = x + 1;
                assert(out@ =~= before + self@.row_upto(y as nat, x as nat));
            }
            proof {
                reveal_strlit("\n");
            }
            out.append("\n");
            y = y + 1;
            assert(out@ =~= self@.rows_upto(y as nat));
        }
        out
    }

    /// What the cell `p` shows: covered or flagged while closed, and once
    /// opened, a mine or the number of mines around it.
    pub fn cell(&self, p: Position) -> (r: Result<Cell, GameError>)
        requires
            self.wf(),
        ensures
            r == (if !self@.in_bounds(p) {
                Err(GameError::OutOfBounds)
            } else if !self@.is_open(p) {
                Ok(if self@.is_flagged(p) { Cell::Flagged } else { Cell::Covered })
            } else if self@.is_mine(p) {
                Ok(Cell::Mine)
            } else {
                Ok(Cell::Count(self@.mine_neighbors(p) as u8))
            }),
    {
        if p.0 >= self.width || p.1 >= self.height {
            return Err(GameError::OutOfBounds);
        }
        let k = self.index(p);
        if !self.open_fields[k] {
            if self.flagged_fields[k] {
                Ok(Cell::Flagged)
            } else {
                Ok(Cell::Covered)
            }
        } else if self.mines[k] {
            Ok(Cell::Mine)
        } else {
            Ok(Cell::Count(self.get_neighbor_mines(p).len() as u8))
        }
    }

    /// Records a win in a running game when every cell without a mine is
    /// open, that is when the number of opened cells is the number of cells
    /// less the number of mines. A game that is over stays as it is.
    pub fn check_state(&mut self)
        requires
            old(self).wf(),
        ensures
            final(self).wf(),
            final(self)@ == (if !old(self)@.is_over && old(self)@.open_count() == old(self)@.cells()
                - old(self)@.mine_count() {
                Board { is_over: true, is_winner: true, ..old(self)@ }
            } else {
                old(self)@
            }),
    {
        if self.is_over {
            return;
        }
        let max_open_count = self.width * self.height - self.num_mines;
        if self.num_open == max_open_count {
            self.is_over = true;
            self.is_winner = true;
        }
    }

    /// Flags an unflagged cell and unflags a flagged one, unless the game is
    /// over or the cell is open.
    pub fn toggle_flag(&mut self, p: Position) -> (r: Result<(), GameError>)
        requires
            old(self).wf(),
        ensures
            final(self).wf(),
            !old(self)@.in_bounds(p) ==> r == Err::<(), GameError>(GameError::OutOfBounds),
            old(self)@.in_bounds(p) ==> r is Ok,
            final(self)@ == old(self)@.toggled(p),
    {
        if p.0 >= self.width || p.1 >= self.height {
            return Err(GameError::OutOfBounds);
        }
        if self.is_over {
            return Ok(());
        }
        let k = self.index(p);
        if self.open_fields[k] {
            return Ok(());
        }
        proof {
            lemma_count_true_update(self.flagged_fields@, k as int, !self.flagged_fields@[k as int]);
            lemma_count_true_le(self.flagged_fields@.update(k as int, true));
        }
        if self.flagged_fields[k] {
            self.flagged_fields.set(k, false);
            self.num_flagged = self.num_flagged - 1;
        } else {
            self.flagged_fields.set(k, true);
            self.num_flagged = self.num_flagged + 1;
        }
        Ok(())
    }

    /// A board of `width` by `height` cells with `num_of_mines` mines at
    /// distinct cells drawn at random, nothing opened or flagged, and the game
    /// not over. Refused when the grid is empty, when its size does not fit in
    /// `usize`, or when the mines would leave no safe cell.
    pub fn new(width: usize, height: usize, num_of_mines: usize) -> (r: Result<
        Ghostsweeper,
        GameError,
    >)
        ensures
            r is Ok <==> width * height <= usize::MAX && num_of_mines < width * height,
            r is Err ==> r == Err::<Ghostsweeper, GameError>(GameError::InvalidConfiguration),
            r matches Ok(g) ==> {
                &&& g.wf()
                &&& g@.width == width
                &&& g@.height == height
                &&& g@.mine_count() == num_of_mines
                &&& forall|i: int| 0 <= i < g@.cells() ==> !g@.opened[i] && !g@.flagged[i]
                &&& !g@.is_over
                &&& !g@.is_winner
            },
    {
        let cells = match width.checked_mul(height) {
            Some(c) => c,
            None => {
                return Err(GameError::InvalidConfiguration);
            },
        };
        if num_of_mines >= cells {
            return Err(GameError::InvalidConfiguration);
        }
        // The cells that hold no mine yet; each draw takes one of them.
        let mut free: Vec<usize> = Vec::new();
        let mut mines: Vec<bool> = Vec::new();
        let mut open_fields: Vec<bool> = Vec::new();
        let mut flagged_fields: Vec<bool> = Vec::new();
        let mut i: usize = 0;
        while i < cells
            invariant
                i <= cells,
                cells == width * height,
                num_of_mines < cells,
                free@.len() == i,
                mines@.len() == i,
                open_fields@.len() == i,
                flagged_fields@.len() == i,
                forall|j: int| 0 <= j < i ==> free@[j] == j,
                forall|j: int| 0 <= j < i ==> !mines@[j] && !open_fields@[j] && !flagged_fields@[j],
            decreases cells - i,
        {
            free.push(i);
            mines.push(false);
            open_fields.push(false);
            flagged_fields.push(false);
            i = i + 1;
        }
        proof {
            lemma_count_true_none(mines@);
            lemma_count_true_none(open_fields@);
            lemma_count_true_none(flagged_fields@);
        }
        let mut placed: usize = 0;
        while placed < num_of_mines
            invariant
                num_of_mines < cells,
                placed <= num_of_mines,
                mines@.len() == cells,
                open_fields@.len() == cells,
                flagged_fields@.len() == cells,
                cells == width * height,
                forall|j: int| 0 <= j < cells ==> !open_fields@[j] && !flagged_fields@[j],
                count_true(open_fields@) == 0,
                count_true(flagged_fields@) == 0,
                free@.len() == cells - placed,
                count_true(mines@) == placed,
                forall|j: int| 0 <= j < free@.len() ==> free@[j] < cells,
                forall|j: int| 0 <= j < free@.len() ==> !mines@[#[trigger] free@[j] as int],
                forall|j: int, l: int|
                    0 <= j < free@.len() && 0 <= l < free@.len() && j != l ==> free@[j]
                        != free@[l],
            decreases num_of_mines - placed,
        {
            let j = range(0, free.len());
            let ghost before = free@;
            let c = free.remove(j);
            proof {
                lemma_count_true_update(mines@, c as int, true);
            }
            mines.set(c, true);
            placed = placed + 1;
            assert forall|l: int| 0 <= l < free@.len() implies !mines@[#[trigger] free@[l] as int] by {
                if l < j {
                    assert(before[l] != c);
                } else {
                    assert(before[l + 1] != c);
                }
            };
        }
        assert(width > 0 && height > 0) by (nonlinear_arith)
            requires
                cells == width * height,
                num_of_mines < cells,
        ;
        Ok(
            Ghostsweeper {
                width,
                height,
                mines,
                open_fields,
                flagged_fields,
                num_mines: num_of_mines,
                num_open: 0,
                num_flagged: 0,
                is_over: false,
                is_winner: false,
            },
        )
    }
}

} // verus!
