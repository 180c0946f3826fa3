//! The grid of cells: creation, neighbours, mine placement and adjacency counts.
use vstd::prelude::*;
use vstd::arithmetic::div_mod::{lemma_fundamental_div_mod, lemma_fundamental_div_mod_converse, lemma_mod_bound};
use crate::random::random_in;

verus! {

/// One grid position.
#[derive(Clone, Copy, Debug, PartialEq, Eq, Structural)]
pub struct Cell {
    pub is_revealed: bool,
    pub is_flagged: bool,
    pub is_mine: bool,
    pub adjacent_mines: u8,
}

/// Everything that a board or a game session can refuse.
#[derive(Clone, Copy, Debug, PartialEq, Eq, Structural)]
pub enum GameError {
    /// A width or height of zero.
    InvalidDimensions,
    /// Too many mines for the cells that may hold one.
    InsufficientSpace,
    /// A session without any mine.
    NoMines,
    /// Mines were already placed on this board.
    AlreadyPlaced,
    /// A coordinate outside the grid.
    OutOfBounds,
    /// The game is already won or lost.
    GameOver,
    /// A flag was toggled before the first reveal.
    NotYetStarted,
    /// A mine layout with a repeated cell, or a cell in the protected row or column,
    /// or of the wrong size; or fewer random draws than mines to place.
    InvalidLayout,
}

/// The state of a cell before anything happened to it.
pub open spec fn blank_cell() -> Cell {
    Cell { is_revealed: false, is_flagged: false, is_mine: false, adjacent_mines: 0 }
}

/// Number of mines in a sequence of cells.
pub open spec fn count_mines(s: Seq<Cell>) -> int
    decreases s.len(),
{
    if s.len() == 0 {
        0
    } else {
        count_mines(s.drop_last()) + if s.last().is_mine { 1int } else { 0 }
    }
}

/// Number of flagged cells in a sequence of cells.
pub open spec fn count_flags(s: Seq<Cell>) -> int
    decreases s.len(),
{
    if s.len() == 0 {
        0
    } else {
        count_flags(s.drop_last()) + if s.last().is_flagged { 1int } else { 0 }
    }
}

/// Row offset of the `k`-th neighbour, in row-major order over the 3x3 block.
pub open spec fn offset_row(k: int) -> int {
    if k < 3 { -1 } else if k < 5 { 0 } else { 1 }
}

/// Column offset of the `k`-th neighbour, in row-major order over the 3x3 block.
pub open spec fn offset_col(k: int) -> int {
    if k == 0 || k == 3 || k == 5 { -1 } else if k == 1 || k == 6 { 0 } else { 1 }
}

/// The neighbours of `(r, c)` among offsets `k..8` that lie in a grid of
/// `w` columns and `h` rows.
pub open spec fn neighbors_in(w: int, h: int, r: int, c: int, k: int) -> Seq<(int, int)>
    decreases 8 - k,
{
    if k >= 8 || k < 0 {
        Seq::empty()
    } else {
        let p = (r + offset_row(k), c + offset_col(k));
        if 0 <= p.0 < h && 0 <= p.1 < w {
            seq![p] + neighbors_in(w, h, r, c, k + 1)
        } else {
            neighbors_in(w, h, r, c, k + 1)
        }
    }
}

/// Row-major index of a coordinate in a grid of `w` columns.
pub open spec fn flat(w: int, p: (usize, usize)) -> int {
    p.0 * w + p.1
}

/// Coordinates as mathematical integers.
pub open spec fn coords_view(s: Seq<(usize, usize)>) -> Seq<(int, int)> {
    s.map_values(|p: (usize, usize)| (p.0 as int, p.1 as int))
}

/// What a board is, mathematically: its dimensions and its cells in row-major order.
pub struct BoardView {
    pub width: int,
    pub height: int,
    pub cells: Seq<Cell>,
    pub mines_placed: bool,
}

impl BoardView {
    pub open spec fn in_bounds(self, r: int, c: int) -> bool {
        0 <= r < self.height && 0 <= c < self.width
    }

    pub open spec fn cell(self, r: int, c: int) -> Cell {
        self.cells[r * self.width + c]
    }

    pub open spec fn is_mine_at(self, r: int, c: int) -> bool {
        self.in_bounds(r, c) && self.cell(r, c).is_mine
    }

    /// The up-to-8 cells around `(r, c)` inside the grid, in row-major order.
    pub open spec fn neighbor_seq(self, r: int, c: int) -> Seq<(int, int)> {
        neighbors_in(self.width, self.height, r, c, 0)
    }

    /// Number of mines at the positions of `s`.
    pub open spec fn mines_among(self, s: Seq<(int, int)>) -> int
        decreases s.len(),
    {
        if s.len() == 0 {
            0
        } else {
            self.mines_among(s.drop_last()) + if self.is_mine_at(s.last().0, s.last().1) {
                1int
            } else {
                0
            }
        }
    }

    /// Number of mines around `(r, c)`.
    pub open spec fn adjacent_mine_count(self, r: int, c: int) -> int {
        self.mines_among(self.neighbor_seq(r, c))
    }

    /// Number of mines on the board.
    pub open spec fn mine_total(self) -> int {
        count_mines(self.cells)
    }

    /// Number of flagged cells on the board.
    pub open spec fn flag_total(self) -> int {
        count_flags(self.cells)
    }

    /// Every cell's count is the number of mines among its neighbours.
    pub open spec fn adjacency_correct(self) -> bool {
        forall|r: int, c: int|
            self.in_bounds(r, c) ==> #[trigger] self.cell(r, c).adjacent_mines as int
                == self.adjacent_mine_count(r, c)
    }

    /// No cell holds a mine.
    pub open spec fn mine_free(self) -> bool {
        forall|r: int, c: int| self.in_bounds(r, c) ==> !(#[trigger] self.cell(r, c)).is_mine
    }

    /// Dimensions and storage agree, and every index fits the machine.
    pub open spec fn shaped(self) -> bool {
        &&& self.width >= 1
        &&& self.height >= 1
        &&& self.width * self.height <= isize::MAX
        &&& self.width <= self.width * self.height
        &&& self.height <= self.width * self.height
        &&& self.cells.len() == self.width * self.height
    }

    pub open spec fn wf(self) -> bool {
        &&& self.shaped()
        &&& self.adjacency_correct()
        &&& !self.mines_placed ==> self.mine_free()
    }

    /// Every cell without a mine is revealed.
    pub open spec fn cleared(self) -> bool {
        forall|r: int, c: int|
            self.in_bounds(r, c) && !(#[trigger] self.cell(r, c)).is_mine ==> self.cell(r, c).is_revealed
    }

    /// This board with the cell at `(r, c)` replaced by `x`.
    pub open spec fn with_cell(self, r: int, c: int, x: Cell) -> BoardView {
        BoardView { cells: self.cells.update(r * self.width + c, x), ..self }
    }

    /// No mine in row `er` nor in column `ec`.
    pub open spec fn spares(self, er: int, ec: int) -> bool {
        forall|r: int, c: int|
            self.in_bounds(r, c) && (r == er || c == ec) ==> !(#[trigger] self.cell(r, c)).is_mine
    }

    /// Same cells as `other` but for the revealed and flagged marks.
    pub open spec fn same_marks(self, other: BoardView) -> bool {
        &&& self.width == other.width
        &&& self.height == other.height
        &&& forall|r: int, c: int|
            self.in_bounds(r, c) ==> (#[trigger] self.cell(r, c)).is_revealed == other.cell(
                r,
                c,
            ).is_revealed && self.cell(r, c).is_flagged == other.cell(r, c).is_flagged
    }
}

/// `(r, c)` lies in row `er` or column `ec`.
pub open spec fn in_protected_zone(p: (int, int), er: int, ec: int) -> bool {
    p.0 == er || p.1 == ec
}

/// A set of mine positions that may be placed on `b` around the first click `(er, ec)`:
/// inside the grid, outside the row and column of the click, without repetition.
pub open spec fn valid_layout(b: BoardView, s: Seq<(int, int)>, er: int, ec: int) -> bool {
    &&& forall|i: int, j: int| 0 <= i < j < s.len() ==> s[i] != s[j]
    &&& forall|k: int|
        0 <= k < s.len() ==> b.in_bounds((#[trigger] s[k]).0, s[k].1) && !in_protected_zone(
            s[k],
            er,
            ec,
        )
}

/// The click and every position of `s` lie inside the grid.
pub open spec fn layout_in_bounds(b: BoardView, s: Seq<(int, int)>, er: int, ec: int) -> bool {
    &&& b.in_bounds(er, ec)
    &&& forall|k: int| 0 <= k < s.len() ==> b.in_bounds((#[trigger] s[k]).0, s[k].1)
}

/// `after` is `before` with mines at exactly the positions of `s`, counted around
/// every cell, and nothing else changed.
pub open spec fn mines_laid(before: BoardView, after: BoardView, s: Seq<(int, int)>) -> bool {
    &&& after.wf()
    &&& after.mines_placed
    &&& after.same_marks(before)
    &&& forall|r: int, c: int|
        after.in_bounds(r, c) ==> ((#[trigger] after.cell(r, c)).is_mine <==> s.contains((r, c)))
    &&& after.mine_total() == s.len()
    &&& after.flag_total() == before.flag_total()
}

/// Number of cells outside the row and the column of a click: those that may hold a mine.
pub open spec fn eligible_count(b: BoardView) -> int {
    (b.height - 1) * (b.width - 1)
}

/// The cells among the first `i` of a grid of `w` columns, in row-major order, that lie
/// outside row `er` and column `ec`.
pub open spec fn eligible_prefix(w: int, er: int, ec: int, i: int) -> Seq<(int, int)>
    decreases i,
{
    if i <= 0 {
        Seq::empty()
    } else {
        let p = ((i - 1) / w, (i - 1) % w);
        if p.0 != er && p.1 != ec {
            eligible_prefix(w, er, ec, i - 1).push(p)
        } else {
            eligible_prefix(w, er, ec, i - 1)
        }
    }
}

/// Every cell of `b` outside row `er` and column `ec`, in row-major order.
pub open spec fn eligible_seq(b: BoardView, er: int, ec: int) -> Seq<(int, int)> {
    eligible_prefix(b.width, er, ec, b.width * b.height)
}

/// `s` with the entries at `i` and `j` exchanged.
pub open spec fn swapped(s: Seq<(int, int)>, i: int, j: int) -> Seq<(int, int)> {
    s.update(i, s[j]).update(j, s[i])
}

/// The position that step `k` of a partial shuffle of `len` entries exchanges with
/// position `k`: one of `k..len`, chosen by the draw `d[k]`.
pub open spec fn draw_target(len: int, d: Seq<usize>, k: int) -> int {
    k + (d[k] as int) % (len - k)
}

/// `s` after the first `k` steps of a partial shuffle driven by the draws `d`.
pub open spec fn shuffled(s: Seq<(int, int)>, d: Seq<usize>, k: int) -> Seq<(int, int)>
    decreases k,
{
    if k <= 0 {
        s
    } else {
        swapped(shuffled(s, d, k - 1), k - 1, draw_target(s.len() as int, d, k - 1))
    }
}

/// Row-major order on coordinates.
pub open spec fn before_in_order(p: (usize, usize), q: (usize, usize)) -> bool {
    p.0 < q.0 || (p.0 == q.0 && p.1 < q.1)
}

pub proof fn lemma_split(w: int, h: int, i: int)
    requires
        w >= 1,
        0 <= i < w * h,
    ensures
        0 <= i / w < h,
        0 <= i % w < w,
        (i / w) * w + i % w == i,
{
    lemma_fundamental_div_mod(i, w);
    lemma_mod_bound(i, w);
    let q = i / w;
    let r = i % w;
    assert(0 <= q < h && q * w + r == i) by (nonlinear_arith)
        requires
            i == w * q + r,
            0 <= r < w,
            0 <= i < w * h,
            w >= 1,
    ;
}

pub proof fn lemma_neighbors_in_facts(w: int, h: int, r: int, c: int, k: int)
    requires
        0 <= k <= 8,
    ensures
        neighbors_in(w, h, r, c, k).len() <= 8 - k,
        forall|j: int|
            0 <= j < neighbors_in(w, h, r, c, k).len() ==> 0 <= (#[trigger] neighbors_in(w, h, r, c, k)[j]).0 < h
                && 0 <= neighbors_in(w, h, r, c, k)[j].1 < w,
    decreases 8 - k,
{
    if k < 8 {
        lemma_neighbors_in_facts(w, h, r, c, k + 1);
    }
}

pub proof fn lemma_count_mines_zero(s: Seq<Cell>)
    requires
        forall|i: int| 0 <= i < s.len() ==> !(#[trigger] s[i]).is_mine,
    ensures
        count_mines(s) == 0,
    decreases s.len(),
{
    if s.len() > 0 {
        lemma_count_mines_zero(s.drop_last());
    }
}

pub proof fn lemma_count_flags_zero(s: Seq<Cell>)
    requires
        forall|i: int| 0 <= i < s.len() ==> !(#[trigger] s[i]).is_flagged,
    ensures
        count_flags(s) == 0,
    decreases s.len(),
{
    if s.len() > 0 {
        lemma_count_flags_zero(s.drop_last());
    }
}

pub proof fn lemma_count_flags_same(a: Seq<Cell>, b: Seq<Cell>)
    requires
        a.len() == b.len(),
        forall|i: int| 0 <= i < a.len() ==> (#[trigger] a[i]).is_flagged == b[i].is_flagged,
    ensures
        count_flags(a) == count_flags(b),
    decreases a.len(),
{
    if a.len() > 0 {
        lemma_count_flags_same(a.drop_last(), b.drop_last());
    }
}

pub proof fn lemma_count_mines_same(a: Seq<Cell>, b: Seq<Cell>)
    requires
        a.len() == b.len(),
        forall|i: int| 0 <= i < a.len() ==> (#[trigger] a[i]).is_mine == b[i].is_mine,
    ensures
        count_mines(a) == count_mines(b),
    decreases a.len(),
{
    if a.len() > 0 {
        lemma_count_mines_same(a.drop_last(), b.drop_last());
    }
}

pub proof fn lemma_index(w: int, h: int, r: int, c: int)
    requires
        0 <= r < h,
        0 <= c < w,
    ensures
        0 <= r * w + c < w * h,
        (r * w + c) / w == r,
        (r * w + c) % w == c,
{
    assert(0 <= r * w + c < w * h) by (nonlinear_arith)
        requires
            0 <= r < h,
            0 <= c < w,
    ;
    lemma_fundamental_div_mod_converse(r * w + c, w, r, c);
}

pub proof fn lemma_index_inj(w: int, r1: int, c1: int, r2: int, c2: int)
    requires
        0 <= r1,
        0 <= r2,
        0 <= c1 < w,
        0 <= c2 < w,
        r1 * w + c1 == r2 * w + c2,
    ensures
        r1 == r2,
        c1 == c2,
{
    lemma_fundamental_div_mod_converse(r1 * w + c1, w, r1, c1);
    lemma_fundamental_div_mod_converse(r1 * w + c1, w, r2, c2);
}

pub proof fn lemma_count_mines_update(s: Seq<Cell>, i: int, x: Cell)
    requires
        0 <= i < s.len(),
    ensures
        count_mines(s.update(i, x)) == count_mines(s) - (if s[i].is_mine { 1int } else { 0 }) + (
        if x.is_mine { 1int } else { 0 }),
    decreases s.len(),
{
    if i == s.len() - 1 {
        assert(s.update(i, x).drop_last() =~= s.drop_last());
    } else {
        assert(s.update(i, x).drop_last() =~= s.drop_last().update(i, x));
        lemma_count_mines_update(s.drop_last(), i, x);
    }
}

pub proof fn lemma_count_flags_update(s: Seq<Cell>, i: int, x: Cell)
    requires
        0 <= i < s.len(),
    ensures
        count_flags(s.update(i, x)) == count_flags(s) - (if s[i].is_flagged { 1int } else { 0 }) + (
        if x.is_flagged { 1int } else { 0 }),
    decreases s.len(),
{
    if i == s.len() - 1 {
        assert(s.update(i, x).drop_last() =~= s.drop_last());
    } else {
        assert(s.update(i, x).drop_last() =~= s.drop_last().update(i, x));
        lemma_count_flags_update(s.drop_last(), i, x);
    }
}

/// Two boards with the same dimensions and the same mines count the same mines anywhere.
pub proof fn lemma_mines_among_same_mines(a: BoardView, b: BoardView, s: Seq<(int, int)>)
    requires
        a.width == b.width,
        a.height == b.height,
        forall|r: int, c: int| a.in_bounds(r, c) ==> (#[trigger] a.cell(r, c)).is_mine == b.cell(r, c).is_mine,
    ensures
        a.mines_among(s) == b.mines_among(s),
    decreases s.len(),
{
    if s.len() > 0 {
        lemma_mines_among_same_mines(a, b, s.drop_last());
        if a.in_bounds(s.last().0, s.last().1) {
            assert(a.cell(s.last().0, s.last().1).is_mine == b.cell(s.last().0, s.last().1).is_mine);
        }
    }
}

/// Where two cells touch: distinct, and at most one step apart in each direction.
pub open spec fn touches(p: (int, int), q: (int, int)) -> bool {
    &&& p != q
    &&& -1 <= q.0 - p.0 <= 1
    &&& -1 <= q.1 - p.1 <= 1
}

proof fn lemma_neighbors_in_contains(w: int, h: int, r: int, c: int, k: int, q: (int, int))
    requires
        0 <= k <= 8,
    ensures
        neighbors_in(w, h, r, c, k).contains(q) <==> exists|j: int|
            k <= j < 8 && 0 <= q.0 < h && 0 <= q.1 < w && q == (r + offset_row(j), c + offset_col(j)),
    decreases 8 - k,
{
    if k < 8 {
        lemma_neighbors_in_contains(w, h, r, c, k + 1, q);
        let p = (r + offset_row(k), c + offset_col(k));
        let rest = neighbors_in(w, h, r, c, k + 1);
        if 0 <= p.0 < h && 0 <= p.1 < w {
            assert((seq![p] + rest)[0] == p);
            if rest.contains(q) {
                let m = choose|m: int| 0 <= m < rest.len() && rest[m] == q;
                assert((seq![p] + rest)[m + 1] == q);
            }
            if (seq![p] + rest).contains(q) && q != p {
                let m = choose|m: int| 0 <= m < (seq![p] + rest).len() && (seq![p] + rest)[m] == q;
                assert(rest[m - 1] == q);
            }
        }
        if exists|j: int| k <= j < 8 && 0 <= q.0 < h && 0 <= q.1 < w && q == (r + offset_row(j), c + offset_col(j)) {
            let j = choose|j: int| k <= j < 8 && 0 <= q.0 < h && 0 <= q.1 < w && q == (r + offset_row(j), c + offset_col(j));
            if j > k {
                assert(exists|j2: int| k + 1 <= j2 < 8 && 0 <= q.0 < h && 0 <= q.1 < w && q == (r + offset_row(j2), c + offset_col(j2)));
            }
        }
    }
}

/// The neighbour list of a cell holds exactly the cells of the grid that touch it.
pub proof fn lemma_neighbor_seq_touches(b: BoardView, r: int, c: int, q: (int, int))
    ensures
        b.neighbor_seq(r, c).contains(q) <==> b.in_bounds(q.0, q.1) && touches((r, c), q),
{
    lemma_neighbors_in_contains(b.width, b.height, r, c, 0, q);
    if b.in_bounds(q.0, q.1) && touches((r, c), q) {
        let dr = q.0 - r;
        let dc = q.1 - c;
        let j: int = if dr == -1 {
            dc + 1
        } else if dr == 0 {
            if dc == -1 { 3 } else { 4 }
        } else {
            dc + 6
        };
        assert(q == (r + offset_row(j), c + offset_col(j)));
    }
}

/// A position among `s` holds no mine where `s` counts none.
pub proof fn lemma_no_mines_among(b: BoardView, s: Seq<(int, int)>, k: int)
    requires
        b.mines_among(s) == 0,
        0 <= k < s.len(),
    ensures
        !b.is_mine_at(s[k].0, s[k].1),
    decreases s.len(),
{
    lemma_mines_among_nonneg(b, s.drop_last());
    if k < s.len() - 1 {
        lemma_no_mines_among(b, s.drop_last(), k);
    }
}

pub proof fn lemma_mines_among_nonneg(b: BoardView, s: Seq<(int, int)>)
    ensures
        b.mines_among(s) >= 0,
    decreases s.len(),
{
    if s.len() > 0 {
        lemma_mines_among_nonneg(b, s.drop_last());
    }
}

/// Board of `width` x `height` cells.
pub struct Board {
    width: usize,
    height: usize,
    cells: Vec<Cell>,
    mines_placed: bool,
}

impl View for Board {
    type V = BoardView;

    closed spec fn view(&self) -> BoardView {
        BoardView {
            width: self.width as int,
            height: self.height as int,
            cells: self.cells@,
            mines_placed: self.mines_placed,
        }
    }
}

/// Offsets of the `k`-th neighbour, each shifted up by one so that they are never negative.
fn shifted_offset(k: usize) -> (d: (usize, usize))
    requires
        k < 8,
    ensures
        d.0 as int - 1 == offset_row(k as int),
        d.1 as int - 1 == offset_col(k as int),
{
    let dr: usize = if k < 3 { 0 } else if k < 5 { 1 } else { 2 };
    let dc: usize = if k == 0 || k == 3 || k == 5 { 0 } else if k == 1 || k == 6 { 1 } else { 2 };
    (dr, dc)
}

impl Board {
    /// An empty board: no mines, nothing revealed or flagged.
    pub fn new(width: usize, height: usize) -> (res: Result<Board, GameError>)
        requires
            width * height <= isize::MAX,
        ensures
            width == 0 || height == 0 ==> res == Err::<Board, GameError>(GameError::InvalidDimensions),
            width > 0 && height > 0 ==> res is Ok && {
                let b = res->Ok_0@;
                &&& b.wf()
                &&& b.width == width
                &&& b.height == height
                &&& !b.mines_placed
                &&& b.flag_total() == 0
                &&& forall|r: int, c: int| b.in_bounds(r, c) ==> #[trigger] b.cell(r, c) == blank_cell()
            },
    {
        if width == 0 || height == 0 {
            return Err(GameError::InvalidDimensions);
        }
        let n: usize = width * height;
        let mut cells: Vec<Cell> = Vec::new();
        let mut i: usize = 0;
        while i < n
            invariant
                i <= n,
                cells@.len() == i,
                forall|j: int| 0 <= j < i ==> cells@[j] == blank_cell(),
            decreases n - i,
        {
            cells.push(Cell { is_revealed: false, is_flagged: false, is_mine: false, adjacent_mines: 0 });
            i = i + 1;
        }
        let b = Board { width, height, cells, mines_placed: false };
        proof {
            lemma_count_flags_zero(b.cells@);
            assert(width <= width * height && height <= width * height) by (nonlinear_arith)
                requires
                    width >= 1,
                    height >= 1,
            ;
            assert forall|r: int, c: int| b@.in_bounds(r, c) implies #[trigger] b@.cell(r, c) == blank_cell() by {
                lemma_index(width as int, height as int, r, c);
            }
            assert forall|r: int, c: int| b@.in_bounds(r, c) implies #[trigger] b@.cell(r, c).adjacent_mines as int
                == b@.adjacent_mine_count(r, c) by {
                lemma_index(width as int, height as int, r, c);
                lemma_all_clear(b@, b@.neighbor_seq(r, c));
            }
        }
        Ok(b)
    }

    pub fn width(&self) -> (w: usize)
        ensures
            w == self@.width,
    {
        self.width
    }

    pub fn height(&self) -> (h: usize)
        ensures
            h == self@.height,
    {
        self.height
    }

    pub fn mines_placed(&self) -> (p: bool)
        ensures
            p == self@.mines_placed,
    {
        self.mines_placed
    }

    pub fn is_in_bounds(&self, row: usize, col: usize) -> (b: bool)
        ensures
            b == self@.in_bounds(row as int, col as int),
    {
        row < self.height && col < self.width
    }

    /// A copy of the cell at `(row, col)`, or `OutOfBounds` outside the grid.
    pub fn cell_at(&self, row: usize, col: usize) -> (res: Result<Cell, GameError>)
        requires
            self@.shaped(),
        ensures
            !self@.in_bounds(row as int, col as int) ==> res == Err::<Cell, GameError>(GameError::OutOfBounds),
            self@.in_bounds(row as int, col as int) ==> res == Ok::<Cell, GameError>(self@.cell(row as int, col as int)),
    {
        if !self.is_in_bounds(row, col) {
            return Err(GameError::OutOfBounds);
        }
        Ok(self.cell_in_grid(row, col))
    }

    /// The cells around `(row, col)` inside the grid, in row-major order, or
    /// `OutOfBounds` when `(row, col)` itself lies outside the grid.
    pub fn neighbors(&self, row: usize, col: usize) -> (res: Result<Vec<(usize, usize)>, GameError>)
        requires
            self@.shaped(),
        ensures
            !self@.in_bounds(row as int, col as int) ==> res == Err::<Vec<(usize, usize)>, GameError>(GameError::OutOfBounds),
            self@.in_bounds(row as int, col as int) ==> res is Ok
                && coords_view(res->Ok_0@) == self@.neighbor_seq(row as int, col as int),
    {
        if !self.is_in_bounds(row, col) {
            return Err(GameError::OutOfBounds);
        }
        Ok(self.neighbors_in_grid(row, col))
    }

    /// A copy of the cell at `(row, col)`, which lies in the grid.
    pub(crate) fn cell_in_grid(&self, row: usize, col: usize) -> (c: Cell)
        requires
            self@.shaped(),
            self@.in_bounds(row as int, col as int),
        ensures
            c == self@.cell(row as int, col as int),
    {
        proof {
            lemma_index(self.width as int, self.height as int, row as int, col as int);
        }
        self.cells[row * self.width + col]
    }

    /// The cells around `(row, col)`, which lies in the grid, in row-major order.
    pub(crate) fn neighbors_in_grid(&self, row: usize, col: usize) -> (out: Vec<(usize, usize)>)
        requires
            self@.shaped(),
            self@.in_bounds(row as int, col as int),
        ensures
            coords_view(out@) == self@.neighbor_seq(row as int, col as int),
    {
        let mut out: Vec<(usize, usize)> = Vec::new();
        let mut k: usize = 0;
        while k < 8
            invariant
                k <= 8,
                self@.shaped(),
                self@.in_bounds(row as int, col as int),
                coords_view(out@) + neighbors_in(self@.width, self@.height, row as int, col as int, k as int)
                    == self@.neighbor_seq(row as int, col as int),
            decreases 8 - k,
        {
            let d = shifted_offset(k);
            let r1 = row + d.0;
            let c1 = col + d.1;
            let ghost old_out = out@;
            if r1 >= 1 && c1 >= 1 && r1 - 1 < self.height && c1 - 1 < self.width {
                out.push((r1 - 1, c1 - 1));
                proof {
                    let p = ((r1 - 1) as int, (c1 - 1) as int);
                    assert(coords_view(out@) =~= coords_view(old_out).push(p));
                    assert(coords_view(old_out).push(p) + neighbors_in(self@.width, self@.height, row as int, col as int, k + 1)
                        =~= coords_view(old_out) + (seq![p] + neighbors_in(self@.width, self@.height, row as int, col as int, k + 1)));
                }
            }
            k = k + 1;
        }
        proof {
            assert(coords_view(out@) + neighbors_in(self@.width, self@.height, row as int, col as int, 8) =~= coords_view(out@));
        }
        out
    }

    /// Number of mines around `(row, col)`.
    fn count_adjacent(&self, row: usize, col: usize) -> (n: u8)
        requires
            self@.shaped(),
            self@.in_bounds(row as int, col as int),
        ensures
            n as int == self@.adjacent_mine_count(row as int, col as int),
    {
        let nb = self.neighbors_in_grid(row, col);
        let ghost ns = self@.neighbor_seq(row as int, col as int);
        proof {
            lemma_neighbors_in_facts(self@.width, self@.height, row as int, col as int, 0);
            assert(nb@.len() == ns.len());
        }
        let mut count: u8 = 0;
        let mut k: usize = 0;
        while k < nb.len()
            invariant
                self@.shaped(),
                k <= nb@.len(),
                nb@.len() <= 8,
                coords_view(nb@) == ns,
                forall|j: int| 0 <= j < ns.len() ==> self@.in_bounds((#[trigger] ns[j]).0, ns[j].1),
                count <= k,
                count as int == self@.mines_among(ns.subrange(0, k as int)),
            decreases nb@.len() - k,
        {
            let p = nb[k];
            proof {
                assert(ns[k as int] == (p.0 as int, p.1 as int));
                lemma_index(self.width as int, self.height as int, p.0 as int, p.1 as int);
                assert(ns.subrange(0, k + 1).drop_last() =~= ns.subrange(0, k as int));
            }
            if self.cells[p.0 * self.width + p.1].is_mine {
                count = count + 1;
            }
            k = k + 1;
        }
        proof {
            assert(ns.subrange(0, nb@.len() as int) =~= ns);
        }
        count
    }

    /// Replaces the cell at `(row, col)` by `x`, which keeps its mine and its count.
    pub(crate) fn set_cell(&mut self, row: usize, col: usize, x: Cell)
        requires
            old(self)@.wf(),
            old(self)@.in_bounds(row as int, col as int),
            x.is_mine == old(self)@.cell(row as int, col as int).is_mine,
            x.adjacent_mines == old(self)@.cell(row as int, col as int).adjacent_mines,
        ensures
            final(self)@ == old(self)@.with_cell(row as int, col as int, x),
    {
        proof {
            lemma_index(self.width as int, self.height as int, row as int, col as int);
        }
        self.cells.set(row * self.width + col, x);
    }

    /// Whether every cell without a mine is revealed.
    pub fn all_safe_cells_revealed(&self) -> (b: bool)
        requires
            self@.shaped(),
        ensures
            b == self@.cleared(),
    {
        let n = self.width * self.height;
        let mut i: usize = 0;
        while i < n
            invariant
                self@.shaped(),
                n == self@.width * self@.height,
                i <= n,
                forall|j: int| 0 <= j < i ==> !(#[trigger] self@.cells[j]).is_mine ==> self@.cells[j].is_revealed,
            decreases n - i,
        {
            let x = self.cells[i];
            if !x.is_mine && !x.is_revealed {
                proof {
                    lemma_split(self@.width, self@.height, i as int);
                    assert(self@.cell(i as int / self@.width, i as int % self@.width) == x);
                }
                return false;
            }
            i = i + 1;
        }
        proof {
            assert forall|r: int, c: int| self@.in_bounds(r, c) && !(#[trigger] self@.cell(r, c)).is_mine implies self@.cell(r, c).is_revealed by {
                lemma_index(self@.width, self@.height, r, c);
            }
        }
        true
    }

    /// Every cell outside row `exclude_row` and column `exclude_col`, in row-major order.
    fn eligible_cells(&self, exclude_row: usize, exclude_col: usize) -> (cands: Vec<(usize, usize)>)
        requires
            self@.shaped(),
            self@.in_bounds(exclude_row as int, exclude_col as int),
        ensures
            cands@.len() == eligible_count(self@),
            coords_view(cands@) == eligible_seq(self@, exclude_row as int, exclude_col as int),
            valid_layout(self@, coords_view(cands@), exclude_row as int, exclude_col as int),
    {
        let w = self.width;
        let h = self.height;
        let mut cands: Vec<(usize, usize)> = Vec::new();
        let mut r: usize = 0;
        while r < h
            invariant
                self@.shaped(),
                w == self@.width,
                h == self@.height,
                exclude_row < h,
                exclude_col < w,
                r <= h,
                cands@.len() == (r - (if exclude_row < r { 1int } else { 0 })) * (w - 1),
                coords_view(cands@) == eligible_prefix(w as int, exclude_row as int, exclude_col as int, r * w),
                forall|a: int, b: int| 0 <= a < b < cands@.len() ==> before_in_order(cands@[a], cands@[b]),
                forall|a: int| 0 <= a < cands@.len() ==> (#[trigger] cands@[a]).0 < r,
                forall|a: int| 0 <= a < cands@.len() ==> (#[trigger] cands@[a]).1 < w
                    && cands@[a].0 != exclude_row && cands@[a].1 != exclude_col,
            decreases h - r,
        {
            let ghost start_len = cands@.len();
            let mut c: usize = 0;
            while c < w
                invariant
                    w == self@.width,
                    h == self@.height,
                    exclude_row < h,
                    exclude_col < w,
                    r < h,
                    c <= w,
                    coords_view(cands@) == eligible_prefix(w as int, exclude_row as int, exclude_col as int, r * w + c),
                    r == exclude_row ==> cands@.len() == start_len,
                    r != exclude_row ==> cands@.len() == start_len + c - (if exclude_col < c { 1int } else { 0 }),
                    forall|a: int, b: int| 0 <= a < b < cands@.len() ==> before_in_order(cands@[a], cands@[b]),
                    forall|a: int| 0 <= a < cands@.len() ==> before_in_order(#[trigger] cands@[a], (r, c)),
                    forall|a: int| 0 <= a < cands@.len() ==> (#[trigger] cands@[a]).0 <= r,
                    forall|a: int| 0 <= a < cands@.len() ==> (#[trigger] cands@[a]).1 < w
                        && cands@[a].0 != exclude_row && cands@[a].1 != exclude_col,
                decreases w - c,
            {
                let ghost before_push = cands@;
                proof {
                    lemma_index(w as int, h as int, r as int, c as int);
                }
                if r != exclude_row && c != exclude_col {
                    cands.push((r, c));
                    proof {
                        assert(coords_view(cands@) =~= coords_view(before_push).push((r as int, c as int)));
                    }
                }
                c = c + 1;
            }
            proof {
                let before_rows = r - (if exclude_row < r { 1int } else { 0 });
                assert(before_rows * (w - 1) + (w - 1) == (before_rows + 1) * (w - 1)) by (nonlinear_arith);
                assert(r * w + w == (r + 1) * w) by (nonlinear_arith);
            }
            r = r + 1;
        }
        proof {
            assert(h * w == w * h) by (nonlinear_arith);
            assert forall|a: int, b: int| 0 <= a < b < cands@.len() implies coords_view(cands@)[a] != coords_view(cands@)[b] by {
                assert(before_in_order(cands@[a], cands@[b]));
            }
            assert forall|k: int| 0 <= k < cands@.len() implies self@.in_bounds((#[trigger] coords_view(cands@)[k]).0, coords_view(cands@)[k].1)
                && !in_protected_zone(coords_view(cands@)[k], exclude_row as int, exclude_col as int) by {
                assert(cands@[k].0 < r);
                assert(cands@[k].1 < w);
            }
        }
        cands
    }

    /// The first `mine_count` cells of a partial shuffle of the eligible cells (those
    /// outside row `exclude_row` and column `exclude_col`, in row-major order). Step `k`
    /// exchanges position `k` with position `k + draws[k] % (n - k)`, where `n` is the
    /// number of eligible cells. Fails with `InvalidLayout` when there are fewer draws
    /// than mines.
    pub fn layout_from_draws(&self, mine_count: usize, exclude_row: usize, exclude_col: usize, draws: &Vec<usize>) -> (res: Result<Vec<(usize, usize)>, GameError>)
        requires
            self@.shaped(),
        ensures
            !self@.in_bounds(exclude_row as int, exclude_col as int) ==> res == Err::<Vec<(usize, usize)>, GameError>(GameError::OutOfBounds),
            self@.in_bounds(exclude_row as int, exclude_col as int) && mine_count > eligible_count(self@)
                ==> res == Err::<Vec<(usize, usize)>, GameError>(GameError::InsufficientSpace),
            self@.in_bounds(exclude_row as int, exclude_col as int) && mine_count <= eligible_count(self@)
                && draws@.len() < mine_count ==> res == Err::<Vec<(usize, usize)>, GameError>(GameError::InvalidLayout),
            self@.in_bounds(exclude_row as int, exclude_col as int) && mine_count <= eligible_count(self@)
                && draws@.len() >= mine_count ==> {
                &&& res is Ok
                &&& coords_view(res->Ok_0@) == shuffled(
                    eligible_seq(self@, exclude_row as int, exclude_col as int),
                    draws@,
                    mine_count as int,
                ).subrange(0, mine_count as int)
                &&& res->Ok_0@.len() == mine_count
                &&& layout_in_bounds(self@, coords_view(res->Ok_0@), exclude_row as int, exclude_col as int)
                &&& valid_layout(self@, coords_view(res->Ok_0@), exclude_row as int, exclude_col as int)
            },
    {
        if exclude_row >= self.height || exclude_col >= self.width {
            return Err(GameError::OutOfBounds);
        }
        let mut cands = self.eligible_cells(exclude_row, exclude_col);
        let len = cands.len();
        if mine_count > len {
            return Err(GameError::InsufficientSpace);
        }
        if draws.len() < mine_count {
            return Err(GameError::InvalidLayout);
        }
        let ghost elig = eligible_seq(self@, exclude_row as int, exclude_col as int);
        let mut k: usize = 0;
        while k < mine_count
            invariant
                k <= mine_count,
                mine_count <= len,
                draws@.len() >= mine_count,
                cands@.len() == len,
                elig.len() == len,
                coords_view(cands@) == shuffled(elig, draws@, k as int),
                valid_layout(self@, coords_view(cands@), exclude_row as int, exclude_col as int),
            decreases mine_count - k,
        {
            proof {
                lemma_mod_bound(draws@[k as int] as int, (len - k) as int);
            }
            let j = k + draws[k] % (len - k);
            let ghost s = cands@;
            let a = cands[k];
            let b = cands[j];
            cands.set(k, b);
            cands.set(j, a);
            proof {
                let t = cands@;
                assert(j as int == draw_target(elig.len() as int, draws@, k as int));
                assert(coords_view(t) =~= swapped(coords_view(s), k as int, j as int));
                assert forall|x: int| 0 <= x < len implies #[trigger] t[x] == s[if x == k { j as int } else if x == j { k as int } else { x }] by {}
                assert forall|x: int, y: int| 0 <= x < y < len implies coords_view(t)[x] != coords_view(t)[y] by {
                    let px = if x == k { j as int } else if x == j { k as int } else { x };
                    let py = if y == k { j as int } else if y == j { k as int } else { y };
                    assert(coords_view(t)[x] == coords_view(s)[px]);
                    assert(coords_view(t)[y] == coords_view(s)[py]);
                    if px < py {
                        assert(coords_view(s)[px] != coords_view(s)[py]);
                    } else {
                        assert(coords_view(s)[py] != coords_view(s)[px]);
                    }
                }
                assert forall|x: int| 0 <= x < len implies self@.in_bounds((#[trigger] coords_view(t)[x]).0, coords_view(t)[x].1)
                    && !in_protected_zone(coords_view(t)[x], exclude_row as int, exclude_col as int) by {
                    let px = if x == k { j as int } else if x == j { k as int } else { x };
                    assert(coords_view(t)[x] == coords_view(s)[px]);
                }
            }
            k = k + 1;
        }
        let ghost full = cands@;
        cands.truncate(mine_count);
        proof {
            assert(cands@ =~= full.subrange(0, mine_count as int));
            assert(coords_view(cands@) =~= coords_view(full).subrange(0, mine_count as int));
            assert forall|x: int| 0 <= x < mine_count implies #[trigger] coords_view(cands@)[x] == coords_view(full)[x] by {}
            assert forall|x: int, y: int| 0 <= x < y < mine_count implies coords_view(cands@)[x] != coords_view(cands@)[y] by {
                assert(coords_view(cands@)[y] == coords_view(full)[y]);
            }
        }
        Ok(cands)
    }

    /// Draws `mine_count` distinct cells uniformly at random among those outside row
    /// `exclude_row` and column `exclude_col`: a partial shuffle whose step `k` draws
    /// uniformly among the `n - k` cells not yet chosen.
    pub fn random_layout(&self, mine_count: usize, exclude_row: usize, exclude_col: usize, rng: &mut rand::rngs::StdRng) -> (res: Result<Vec<(usize, usize)>, GameError>)
        requires
            self@.shaped(),
        ensures
            !self@.in_bounds(exclude_row as int, exclude_col as int) ==> res == Err::<Vec<(usize, usize)>, GameError>(GameError::OutOfBounds),
            self@.in_bounds(exclude_row as int, exclude_col as int) && mine_count > eligible_count(self@)
                ==> res == Err::<Vec<(usize, usize)>, GameError>(GameError::InsufficientSpace),
            self@.in_bounds(exclude_row as int, exclude_col as int) && mine_count <= eligible_count(self@) ==> {
                &&& res is Ok
                &&& res->Ok_0@.len() == mine_count
                &&& layout_in_bounds(self@, coords_view(res->Ok_0@), exclude_row as int, exclude_col as int)
                &&& valid_layout(self@, coords_view(res->Ok_0@), exclude_row as int, exclude_col as int)
                &&& exists|d: Seq<usize>| d.len() == mine_count && coords_view(res->Ok_0@) == #[trigger] shuffled(
                    eligible_seq(self@, exclude_row as int, exclude_col as int),
                    d,
                    mine_count as int,
                ).subrange(0, mine_count as int)
            },
    {
        if exclude_row >= self.height || exclude_col >= self.width {
            return Err(GameError::OutOfBounds);
        }
        proof {
            assert((self.height - 1) * (self.width - 1) <= self.width * self.height) by (nonlinear_arith)
                requires
                    self.width >= 1,
                    self.height >= 1,
            ;
        }
        let count = (self.height - 1) * (self.width - 1);
        if mine_count > count {
            return Err(GameError::InsufficientSpace);
        }
        let mut draws: Vec<usize> = Vec::new();
        let mut k: usize = 0;
        while k < mine_count
            invariant
                k <= mine_count,
                mine_count <= count,
                draws@.len() == k,
            decreases mine_count - k,
        {
            draws.push(random_in(rng, 0, count - k));
            k = k + 1;
        }
        self.layout_from_draws(mine_count, exclude_row, exclude_col, &draws)
    }

    /// Places `mine_count` mines uniformly at random, never in row `exclude_row` nor in
    /// column `exclude_col`, and counts the mines around every cell. Mines are placed
    /// once per board.
    pub fn place_mines(&mut self, mine_count: usize, exclude_row: usize, exclude_col: usize, rng: &mut rand::rngs::StdRng) -> (res: Result<(), GameError>)
        requires
            old(self)@.wf(),
        ensures
            final(self)@.wf(),
            res is Err ==> final(self)@ == old(self)@,
            res == Err::<(), GameError>(GameError::AlreadyPlaced) <==> old(self)@.mines_placed,
            res == Err::<(), GameError>(GameError::OutOfBounds) <==> !old(self)@.mines_placed
                && !old(self)@.in_bounds(exclude_row as int, exclude_col as int),
            res == Err::<(), GameError>(GameError::InsufficientSpace) <==> !old(self)@.mines_placed
                && old(self)@.in_bounds(exclude_row as int, exclude_col as int)
                && mine_count > eligible_count(old(self)@),
            res is Ok <==> !old(self)@.mines_placed
                && old(self)@.in_bounds(exclude_row as int, exclude_col as int)
                && mine_count <= eligible_count(old(self)@),
            res is Ok ==> final(self)@.mines_placed && final(self)@.same_marks(old(self)@)
                && final(self)@.mine_total() == mine_count
                && final(self)@.spares(exclude_row as int, exclude_col as int),
    {
        if self.mines_placed {
            return Err(GameError::AlreadyPlaced);
        }
        let layout = self.random_layout(mine_count, exclude_row, exclude_col, rng);
        match layout {
            Err(e) => Err(e),
            Ok(cells) => self.place_mines_at(&cells, exclude_row, exclude_col),
        }
    }

    /// Places mines at exactly the given positions, keeping row `exclude_row` and column
    /// `exclude_col` free of mines, and counts the mines around every cell.
    pub fn place_mines_at(&mut self, mines: &Vec<(usize, usize)>, exclude_row: usize, exclude_col: usize) -> (res: Result<(), GameError>)
        requires
            old(self)@.wf(),
        ensures
            final(self)@.wf(),
            res is Err ==> final(self)@ == old(self)@,
            res == Err::<(), GameError>(GameError::AlreadyPlaced) <==> old(self)@.mines_placed,
            res == Err::<(), GameError>(GameError::OutOfBounds) <==> !old(self)@.mines_placed
                && !layout_in_bounds(old(self)@, coords_view(mines@), exclude_row as int, exclude_col as int),
            res == Err::<(), GameError>(GameError::InvalidLayout) <==> !old(self)@.mines_placed
                && layout_in_bounds(old(self)@, coords_view(mines@), exclude_row as int, exclude_col as int)
                && !valid_layout(old(self)@, coords_view(mines@), exclude_row as int, exclude_col as int),
            res is Ok <==> !old(self)@.mines_placed
                && layout_in_bounds(old(self)@, coords_view(mines@), exclude_row as int, exclude_col as int)
                && valid_layout(old(self)@, coords_view(mines@), exclude_row as int, exclude_col as int),
            res is Ok ==> mines_laid(old(self)@, final(self)@, coords_view(mines@)),
            res is Ok ==> final(self)@.spares(exclude_row as int, exclude_col as int),
    {
        let ghost cv = coords_view(mines@);
        if self.mines_placed {
            return Err(GameError::AlreadyPlaced);
        }
        if exclude_row >= self.height || exclude_col >= self.width {
            return Err(GameError::OutOfBounds);
        }
        let m = mines.len();
        let mut k: usize = 0;
        while k < m
            invariant
                self@ == old(self)@,
                old(self)@.wf(),
                !old(self)@.mines_placed,
                k <= m,
                m == mines@.len(),
                cv == coords_view(mines@),
                forall|j: int| 0 <= j < k ==> self@.in_bounds((#[trigger] cv[j]).0, cv[j].1),
            decreases m - k,
        {
            let p = mines[k];
            if p.0 >= self.height || p.1 >= self.width {
                proof {
                    assert(!self@.in_bounds(cv[k as int].0, cv[k as int].1));
                }
                return Err(GameError::OutOfBounds);
            }
            k = k + 1;
        }
        let n: usize = self.width * self.height;
        let mut taken: Vec<bool> = Vec::new();
        let mut i: usize = 0;
        while i < n
            invariant
                self@ == old(self)@,
                i <= n,
                taken@.len() == i,
                forall|j: int| 0 <= j < i ==> !(#[trigger] taken@[j]),
            decreases n - i,
        {
            taken.push(false);
            i = i + 1;
        }
        let w = self.width;
        let h = self.height;
        k = 0;
        while k < m
            invariant
                self@ == old(self)@,
                self@.wf(),
                !self@.mines_placed,
                w == self@.width,
                h == self@.height,
                n == w * h,
                k <= m,
                m == mines@.len(),
                cv == coords_view(mines@),
                taken@.len() == n,
                exclude_row < h,
                exclude_col < w,
                forall|j: int| 0 <= j < m ==> self@.in_bounds((#[trigger] cv[j]).0, cv[j].1),
                forall|j: int| 0 <= j < k ==> !in_protected_zone(#[trigger] cv[j], exclude_row as int, exclude_col as int),
                forall|a: int, b: int| 0 <= a < b < k ==> cv[a] != cv[b],
                forall|t: int| 0 <= t < n ==> (taken@[t] <==> exists|j: int| 0 <= j < k && flat(w as int, #[trigger] mines@[j]) == t),
            decreases m - k,
        {
            let p = mines[k];
            proof {
                assert(cv[k as int] == (p.0 as int, p.1 as int));
                lemma_index(w as int, h as int, p.0 as int, p.1 as int);
            }
            if p.0 == exclude_row || p.1 == exclude_col {
                proof {
                    assert(!valid_layout(self@, cv, exclude_row as int, exclude_col as int));
                }
                return Err(GameError::InvalidLayout);
            }
            let t = p.0 * w + p.1;
            if taken[t] {
                proof {
                    let j = choose|j: int| 0 <= j < k && flat(w as int, #[trigger] mines@[j]) == t;
                    assert(cv[j] == (mines@[j].0 as int, mines@[j].1 as int));
                    lemma_index_inj(w as int, mines@[j].0 as int, mines@[j].1 as int, p.0 as int, p.1 as int);
                    assert(cv[j] == cv[k as int]);
                    assert(!valid_layout(self@, cv, exclude_row as int, exclude_col as int));
                }
                return Err(GameError::InvalidLayout);
            }
            let ghost old_taken = taken@;
            taken.set(t, true);
            proof {
                assert forall|a: int, b: int| 0 <= a < b < k + 1 implies cv[a] != cv[b] by {
                    if b == k {
                        assert(cv[a] == (mines@[a].0 as int, mines@[a].1 as int));
                        if cv[a] == cv[b] {
                            assert(old_taken[t as int]);
                        }
                    }
                }
                assert forall|u: int| 0 <= u < n implies (taken@[u] <==> exists|j: int| 0 <= j < k + 1 && flat(w as int, #[trigger] mines@[j]) == u) by {
                    if u == t {
                        assert(flat(w as int, mines@[k as int]) == u);
                    } else {
                        if exists|j: int| 0 <= j < k + 1 && flat(w as int, #[trigger] mines@[j]) == u {
                            let j = choose|j: int| 0 <= j < k + 1 && flat(w as int, #[trigger] mines@[j]) == u;
                            assert(j < k);
                        }
                    }
                }
            }
            k = k + 1;
        }
        let ghost before = self@;
        proof {
            assert forall|t: int| 0 <= t < n implies !(#[trigger] before.cells[t]).is_mine by {
                lemma_split(w as int, h as int, t);
                assert(before.cell(t / w as int, t % w as int) == before.cells[t]);
            }
            lemma_count_mines_zero(before.cells);
        }
        k = 0;
        while k < m
            invariant
                self@.shaped(),
                before.shaped(),
                !self@.mines_placed,
                self@.width == before.width,
                self@.height == before.height,
                w == self@.width,
                h == self@.height,
                n == w * h,
                k <= m,
                m == mines@.len(),
                cv == coords_view(mines@),
                forall|j: int| 0 <= j < m ==> self@.in_bounds((#[trigger] cv[j]).0, cv[j].1),
                forall|a: int, b: int| 0 <= a < b < m ==> cv[a] != cv[b],
                forall|t: int| 0 <= t < n ==> ((#[trigger] self@.cells[t]).is_mine <==> exists|j: int| 0 <= j < k && flat(w as int, #[trigger] mines@[j]) == t),
                forall|t: int| 0 <= t < n ==> (#[trigger] self@.cells[t]).is_revealed == before.cells[t].is_revealed
                    && self@.cells[t].is_flagged == before.cells[t].is_flagged
                    && self@.cells[t].adjacent_mines == before.cells[t].adjacent_mines,
                count_mines(self@.cells) == k,
            decreases m - k,
        {
            let p = mines[k];
            proof {
                assert(cv[k as int] == (p.0 as int, p.1 as int));
                lemma_index(w as int, h as int, p.0 as int, p.1 as int);
            }
            let t = p.0 * w + p.1;
            proof {
                if self@.cells[t as int].is_mine {
                    let j = choose|j: int| 0 <= j < k && flat(w as int, #[trigger] mines@[j]) == t;
                    assert(cv[j] == (mines@[j].0 as int, mines@[j].1 as int));
                    lemma_index_inj(w as int, mines@[j].0 as int, mines@[j].1 as int, p.0 as int, p.1 as int);
                    assert(cv[j] == cv[k as int]);
                }
            }
            let cur = self.cells[t];
            let ghost old_cells = self@.cells;
            let updated = Cell { is_revealed: cur.is_revealed, is_flagged: cur.is_flagged, is_mine: true, adjacent_mines: cur.adjacent_mines };
            self.cells.set(t, updated);
            proof {
                lemma_count_mines_update(old_cells, t as int, updated);
                assert forall|u: int| 0 <= u < n implies ((#[trigger] self@.cells[u]).is_mine <==> exists|j: int| 0 <= j < k + 1 && flat(w as int, #[trigger] mines@[j]) == u) by {
                    if u == t {
                        assert(flat(w as int, mines@[k as int]) == u);
                    } else {
                        assert(self@.cells[u] == old_cells[u]);
                        if exists|j: int| 0 <= j < k + 1 && flat(w as int, #[trigger] mines@[j]) == u {
                            let j = choose|j: int| 0 <= j < k + 1 && flat(w as int, #[trigger] mines@[j]) == u;
                            assert(j < k);
                        }
                    }
                }
            }
            k = k + 1;
        }
        let ghost marked = self@;
        let mut out: Vec<Cell> = Vec::new();
        let mut i: usize = 0;
        while i < n
            invariant
                self@ == marked,
                marked.shaped(),
                w == marked.width,
                h == marked.height,
                n == w * h,
                i <= n,
                out@.len() == i,
                forall|j: int| 0 <= j < i ==> (#[trigger] out@[j]).is_mine == marked.cells[j].is_mine
                    && out@[j].is_revealed == marked.cells[j].is_revealed
                    && out@[j].is_flagged == marked.cells[j].is_flagged
                    && out@[j].adjacent_mines as int == marked.adjacent_mine_count(j / w as int, j % w as int),
            decreases n - i,
        {
            proof {
                lemma_split(w as int, h as int, i as int);
            }
            let r = i / w;
            let c = i % w;
            let cnt = self.count_adjacent(r, c);
            let cur = self.cells[i];
            out.push(Cell { is_revealed: cur.is_revealed, is_flagged: cur.is_flagged, is_mine: cur.is_mine, adjacent_mines: cnt });
            i = i + 1;
        }
        self.cells = out;
        self.mines_placed = true;
        proof {
            lemma_count_mines_same(self@.cells, marked.cells);
            lemma_count_flags_same(self@.cells, before.cells);
            assert forall|r: int, c: int| self@.in_bounds(r, c) implies (#[trigger] self@.cell(r, c)).is_mine == marked.cell(r, c).is_mine by {
                lemma_index(w as int, h as int, r, c);
            }
            assert forall|r: int, c: int| self@.in_bounds(r, c) implies #[trigger] self@.cell(r, c).adjacent_mines as int
                == self@.adjacent_mine_count(r, c) by {
                lemma_index(w as int, h as int, r, c);
                lemma_mines_among_same_mines(self@, marked, self@.neighbor_seq(r, c));
            }
            assert forall|r: int, c: int| self@.in_bounds(r, c) implies ((#[trigger] self@.cell(r, c)).is_mine <==> cv.contains((r, c))) by {
                lemma_index(w as int, h as int, r, c);
                let t = r * w + c;
                if self@.cell(r, c).is_mine {
                    assert(marked.cells[t].is_mine);
                    let j = choose|j: int| 0 <= j < m && flat(w as int, #[trigger] mines@[j]) == t;
                    assert(cv[j] == (mines@[j].0 as int, mines@[j].1 as int));
                    lemma_index_inj(w as int, mines@[j].0 as int, mines@[j].1 as int, r, c);
                    assert(cv[j] == (r, c));
                }
                if cv.contains((r, c)) {
                    let j = choose|j: int| 0 <= j < cv.len() && cv[j] == (r, c);
                    assert(cv[j] == (mines@[j].0 as int, mines@[j].1 as int));
                    assert(flat(w as int, mines@[j]) == t);
                    assert(marked.cells[t].is_mine);
                }
            }
            assert forall|r: int, c: int| self@.in_bounds(r, c) implies (#[trigger] self@.cell(r, c)).is_revealed == before.cell(r, c).is_revealed
                && self@.cell(r, c).is_flagged == before.cell(r, c).is_flagged by {
                lemma_index(w as int, h as int, r, c);
            }
            assert forall|r: int, c: int| self@.in_bounds(r, c) && (r == exclude_row || c == exclude_col) implies !(#[trigger] self@.cell(r, c)).is_mine by {
                if self@.cell(r, c).is_mine {
                    let j = choose|j: int| 0 <= j < cv.len() && cv[j] == (r, c);
                    assert(!in_protected_zone(cv[j], exclude_row as int, exclude_col as int));
                }
            }
        }
        Ok(())
    }
}

pub proof fn lemma_count_flags_bound(s: Seq<Cell>)
    ensures
        0 <= count_flags(s) <= s.len(),
    decreases s.len(),
{
    if s.len() > 0 {
        lemma_count_flags_bound(s.drop_last());
    }
}

/// Replacing one cell by another with the same mine changes no mine count and no
/// neighbour list, and keeps the board well formed.
pub proof fn lemma_with_cell(b: BoardView, r: int, c: int, x: Cell)
    requires
        b.wf(),
        b.in_bounds(r, c),
        x.is_mine == b.cell(r, c).is_mine,
        x.adjacent_mines == b.cell(r, c).adjacent_mines,
    ensures
        b.with_cell(r, c, x).wf(),
        b.with_cell(r, c, x).cell(r, c) == x,
        forall|r2: int, c2: int|
            b.in_bounds(r2, c2) && (r2 != r || c2 != c) ==> #[trigger] b.with_cell(r, c, x).cell(r2, c2) == b.cell(r2, c2),
        b.with_cell(r, c, x).mine_total() == b.mine_total(),
        b.with_cell(r, c, x).flag_total() == b.flag_total() - (if b.cell(r, c).is_flagged { 1int } else { 0 }) + (
        if x.is_flagged { 1int } else { 0 }),
{
    let a = b.with_cell(r, c, x);
    lemma_index(b.width, b.height, r, c);
    assert forall|r2: int, c2: int|
        b.in_bounds(r2, c2) && (r2 != r || c2 != c) implies #[trigger] a.cell(r2, c2) == b.cell(r2, c2) by {
        lemma_index(b.width, b.height, r2, c2);
        if r2 * b.width + c2 == r * b.width + c {
            lemma_index_inj(b.width, r2, c2, r, c);
        }
    }
    assert forall|r2: int, c2: int| a.in_bounds(r2, c2) implies (#[trigger] a.cell(r2, c2)).is_mine == b.cell(r2, c2).is_mine by {
        if r2 != r || c2 != c {
            assert(a.cell(r2, c2) == b.cell(r2, c2));
        }
    }
    assert forall|r2: int, c2: int| a.in_bounds(r2, c2) implies #[trigger] a.cell(r2, c2).adjacent_mines as int
        == a.adjacent_mine_count(r2, c2) by {
        lemma_mines_among_same_mines(a, b, a.neighbor_seq(r2, c2));
        if r2 != r || c2 != c {
            assert(a.cell(r2, c2) == b.cell(r2, c2));
        }
        assert(b.cell(r2, c2).adjacent_mines as int == b.adjacent_mine_count(r2, c2));
    }
    if !b.mines_placed {
        assert forall|r2: int, c2: int| a.in_bounds(r2, c2) implies !(#[trigger] a.cell(r2, c2)).is_mine by {
            if r2 != r || c2 != c {
                assert(a.cell(r2, c2) == b.cell(r2, c2));
            }
        }
    }
    lemma_count_mines_update(b.cells, r * b.width + c, x);
    lemma_count_flags_update(b.cells, r * b.width + c, x);
}

/// On a board without mines every count of mines is zero.
pub proof fn lemma_all_clear(b: BoardView, s: Seq<(int, int)>)
    requires
        b.mine_free(),
    ensures
        b.mines_among(s) == 0,
    decreases s.len(),
{
    if s.len() > 0 {
        lemma_all_clear(b, s.drop_last());
        if b.in_bounds(s.last().0, s.last().1) {
            assert(!b.cell(s.last().0, s.last().1).is_mine);
        }
    }
}

} // verus!
