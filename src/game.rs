//! A game session: the board, the match phase and the flag counter, driven by
//! reveal and flag intents.
use vstd::prelude::*;
use crate::board::{
    Board, BoardView, Cell, GameError, blank_cell, coords_view, eligible_count, layout_in_bounds,
    lemma_count_flags_bound, lemma_with_cell, mines_laid, valid_layout,
};
use crate::flood::{distinct, flood, flood_reveal, lemma_flood_avoids_flags, revealed_exactly};

verus! {

/// Where a match stands.
#[derive(Clone, Copy, Debug, PartialEq, Eq, Structural)]
pub enum Phase {
    NotStarted,
    InProgress,
    Won,
    Lost,
}

/// What a reveal did: the phase after it and the cells that became visible.
pub struct RevealOutcome {
    pub phase: Phase,
    pub revealed: Vec<(usize, usize)>,
}

/// What a flag toggle did: the cell's new flag and the new counter.
#[derive(Clone, Copy, Debug, PartialEq, Eq, Structural)]
pub struct FlagOutcome {
    pub is_flagged: bool,
    pub flags_remaining: isize,
}

/// A cell as a player may see it: its mine only once revealed or once the game is
/// over, its count only once revealed.
#[derive(Clone, Copy, Debug, PartialEq, Eq, Structural)]
pub struct CellView {
    pub is_revealed: bool,
    pub is_flagged: bool,
    pub is_mine: Option<bool>,
    pub adjacent_mines: Option<u8>,
}

/// What a session is, mathematically.
pub struct GameView {
    pub board: BoardView,
    pub mine_count: int,
    pub flags_remaining: int,
    pub phase: Phase,
}

impl GameView {
    pub open spec fn wf(self) -> bool {
        &&& self.board.wf()
        &&& 0 < self.mine_count < self.board.width * self.board.height
        &&& self.mine_count <= eligible_count(self.board)
        &&& self.flags_remaining == self.mine_count - self.board.flag_total()
        &&& (self.phase == Phase::NotStarted <==> !self.board.mines_placed)
        &&& self.phase == Phase::NotStarted ==> forall|r: int, c: int|
            self.board.in_bounds(r, c) ==> #[trigger] self.board.cell(r, c) == blank_cell()
        &&& self.board.mines_placed ==> self.board.mine_total() == self.mine_count
    }

    pub open spec fn is_over(self) -> bool {
        self.phase == Phase::Won || self.phase == Phase::Lost
    }

    /// This state with the flag of `(r, c)` flipped; a revealed cell keeps its state.
    pub open spec fn after_toggle(self, r: int, c: int) -> GameView {
        let x = self.board.cell(r, c);
        if x.is_revealed {
            self
        } else {
            GameView {
                board: self.board.with_cell(r, c, Cell { is_flagged: !x.is_flagged, ..x }),
                flags_remaining: if x.is_flagged {
                    self.flags_remaining + 1
                } else {
                    self.flags_remaining - 1
                },
                ..self
            }
        }
    }

    /// The cell at `(r, c)` as a player may see it.
    pub open spec fn visible_cell(self, r: int, c: int) -> CellView {
        let x = self.board.cell(r, c);
        CellView {
            is_revealed: x.is_revealed,
            is_flagged: x.is_flagged,
            is_mine: if x.is_revealed || self.is_over() { Some(x.is_mine) } else { None },
            adjacent_mines: if x.is_revealed { Some(x.adjacent_mines) } else { None },
        }
    }
}

/// `after`, `out_phase` and `out` are what revealing `(r, c)` makes of `before`, on a
/// board whose mines are placed: nothing on a flagged or revealed cell; the loss on a
/// mine, with that cell alone revealed; else the flood region revealed, the cells it
/// uncovered reported once each, and the win exactly when every safe cell is revealed.
pub open spec fn reveal_step(before: GameView, after: GameView, r: int, c: int, out_phase: Phase, out: Seq<(int, int)>) -> bool {
    let b = before.board;
    let x = b.cell(r, c);
    &&& after.mine_count == before.mine_count
    &&& after.flags_remaining == before.flags_remaining
    &&& out_phase == after.phase
    &&& if x.is_flagged || x.is_revealed {
        after == before && out.len() == 0
    } else if x.is_mine {
        &&& after.board == b.with_cell(r, c, Cell { is_revealed: true, ..x })
        &&& after.phase == Phase::Lost
        &&& out == seq![(r, c)]
    } else {
        &&& revealed_exactly(b, after.board, flood(b, (r, c)))
        &&& after.phase == (if after.board.cleared() { Phase::Won } else { Phase::InProgress })
        &&& distinct(out)
        &&& forall|q: (int, int)| #[trigger] out.contains(q) <==> flood(b, (r, c)).contains(q)
            && !b.cell(q.0, q.1).is_revealed
    }
}

/// `before` once its board holds the mines of `mid` and play has begun.
pub open spec fn started(before: GameView, mid: BoardView) -> GameView {
    GameView { board: mid, phase: Phase::InProgress, ..before }
}

/// Once the mines of a well-formed session are placed, the board holds exactly the
/// session's mine count, and the count of every cell is the number of mines among its
/// neighbours.
pub proof fn lemma_session_counts(g: GameView)
    requires
        g.wf(),
        g.board.mines_placed,
    ensures
        g.board.mine_total() == g.mine_count,
        forall|r: int, c: int|
            g.board.in_bounds(r, c) ==> #[trigger] g.board.cell(r, c).adjacent_mines as int
                == g.board.mines_among(g.board.neighbor_seq(r, c)),
{
}

/// Mines laid from a valid layout for a click at `(r, c)` leave row `r` and column `c`
/// without a mine.
pub proof fn lemma_layout_spares_click_lines(b: BoardView, mid: BoardView, layout: Seq<(int, int)>, r: int, c: int)
    requires
        valid_layout(b, layout, r, c),
        mines_laid(b, mid, layout),
    ensures
        mid.spares(r, c),
{
    assert forall|r2: int, c2: int| mid.in_bounds(r2, c2) && (r2 == r || c2 == c) implies !(#[trigger] mid.cell(r2, c2)).is_mine by {
        if mid.cell(r2, c2).is_mine {
            let j = choose|j: int| 0 <= j < layout.len() && layout[j] == (r2, c2);
            assert(layout[j] == (r2, c2));
        }
    }
}

/// A reveal never uncovers a cell that carried a flag, whatever the fill reaches.
pub proof fn lemma_reveal_keeps_flagged_hidden(before: GameView, after: GameView, r: int, c: int, phase: Phase, out: Seq<(int, int)>)
    requires
        before.wf(),
        before.board.in_bounds(r, c),
        reveal_step(before, after, r, c, phase, out),
    ensures
        forall|r2: int, c2: int|
            before.board.in_bounds(r2, c2) && before.board.cell(r2, c2).is_flagged && !before.board.cell(r2, c2).is_revealed
                ==> !(#[trigger] after.board.cell(r2, c2)).is_revealed,
{
    let b = before.board;
    let x = b.cell(r, c);
    if !x.is_flagged && !x.is_revealed {
        if x.is_mine {
            lemma_with_cell(b, r, c, Cell { is_revealed: true, ..x });
        } else {
            lemma_flood_avoids_flags(b, (r, c));
            assert forall|r2: int, c2: int|
                b.in_bounds(r2, c2) && b.cell(r2, c2).is_flagged && !b.cell(r2, c2).is_revealed
                    implies !(#[trigger] after.board.cell(r2, c2)).is_revealed by {
                assert(!flood(b, (r, c)).contains((r2, c2)));
            }
        }
    }
}

/// A reveal on a board whose mines are placed keeps every mine and every count where
/// it was, never hides a revealed cell, and leaves every count right.
pub proof fn lemma_reveal_keeps_mines_and_counts(before: GameView, after: GameView, r: int, c: int, phase: Phase, out: Seq<(int, int)>)
    requires
        before.wf(),
        before.board.mines_placed,
        before.board.in_bounds(r, c),
        reveal_step(before, after, r, c, phase, out),
    ensures
        after.board.width == before.board.width,
        after.board.height == before.board.height,
        after.board.adjacency_correct(),
        forall|r2: int, c2: int|
            before.board.in_bounds(r2, c2) ==> (#[trigger] after.board.cell(r2, c2)).is_mine == before.board.cell(r2, c2).is_mine
                && after.board.cell(r2, c2).adjacent_mines == before.board.cell(r2, c2).adjacent_mines
                && (before.board.cell(r2, c2).is_revealed ==> after.board.cell(r2, c2).is_revealed),
{
    let b = before.board;
    let x = b.cell(r, c);
    if !x.is_flagged && !x.is_revealed && x.is_mine {
        lemma_with_cell(b, r, c, Cell { is_revealed: true, ..x });
    }
}

/// One match: a board, its mine count, the flag counter and the phase.
pub struct GameSession {
    board: Board,
    mine_count: usize,
    flags_remaining: isize,
    phase: Phase,
}

impl View for GameSession {
    type V = GameView;

    closed spec fn view(&self) -> GameView {
        GameView {
            board: self.board@,
            mine_count: self.mine_count as int,
            flags_remaining: self.flags_remaining as int,
            phase: self.phase,
        }
    }
}

impl GameSession {
    /// A session on an empty `width` x `height` board that will hold `mine_count` mines.
    pub fn new(width: usize, height: usize, mine_count: usize) -> (res: Result<GameSession, GameError>)
        requires
            width * height <= isize::MAX,
        ensures
            width == 0 || height == 0 ==> res == Err::<GameSession, GameError>(GameError::InvalidDimensions),
            width > 0 && height > 0 && mine_count == 0 ==> res == Err::<GameSession, GameError>(GameError::NoMines),
            width > 0 && height > 0 && mine_count > (height - 1) * (width - 1) ==> res == Err::<GameSession, GameError>(
                GameError::InsufficientSpace,
            ),
            width > 0 && height > 0 && 0 < mine_count <= (height - 1) * (width - 1) ==> res is Ok && {
                let g = res->Ok_0@;
                &&& g.wf()
                &&& g.phase == Phase::NotStarted
                &&& g.mine_count == mine_count
                &&& g.flags_remaining == mine_count
                &&& g.board.width == width
                &&& g.board.height == height
            },
    {
        let board = match Board::new(width, height) {
            Ok(b) => b,
            Err(e) => {
                return Err(e);
            },
        };
        if mine_count == 0 {
            return Err(GameError::NoMines);
        }
        proof {
            assert((height - 1) * (width - 1) < width * height) by (nonlinear_arith)
                requires
                    width >= 1,
                    height >= 1,
            ;
        }
        if mine_count > (height - 1) * (width - 1) {
            return Err(GameError::InsufficientSpace);
        }
        Ok(GameSession { board, mine_count, flags_remaining: mine_count as isize, phase: Phase::NotStarted })
    }

    pub fn phase(&self) -> (p: Phase)
        ensures
            p == self@.phase,
    {
        self.phase
    }

    pub fn flags_remaining(&self) -> (f: isize)
        ensures
            f == self@.flags_remaining,
    {
        self.flags_remaining
    }

    pub fn mine_count(&self) -> (m: usize)
        ensures
            m == self@.mine_count,
    {
        self.mine_count
    }

    /// Width and height of the board.
    pub fn dimensions(&self) -> (d: (usize, usize))
        ensures
            d.0 == self@.board.width,
            d.1 == self@.board.height,
    {
        (self.board.width(), self.board.height())
    }

    /// The cell at `(row, col)` as a player may see it.
    pub fn get_cell(&self, row: usize, col: usize) -> (res: Result<CellView, GameError>)
        requires
            self@.wf(),
        ensures
            !self@.board.in_bounds(row as int, col as int) ==> res == Err::<CellView, GameError>(GameError::OutOfBounds),
            self@.board.in_bounds(row as int, col as int) ==> res == Ok::<CellView, GameError>(
                self@.visible_cell(row as int, col as int),
            ),
    {
        if !self.board.is_in_bounds(row, col) {
            return Err(GameError::OutOfBounds);
        }
        let x = self.board.cell_in_grid(row, col);
        let over = match self.phase {
            Phase::Won | Phase::Lost => true,
            _ => false,
        };
        Ok(CellView {
            is_revealed: x.is_revealed,
            is_flagged: x.is_flagged,
            is_mine: if x.is_revealed || over { Some(x.is_mine) } else { None },
            adjacent_mines: if x.is_revealed { Some(x.adjacent_mines) } else { None },
        })
    }

    /// Reveals `(row, col)` on a board whose mines are placed.
    fn reveal_placed(&mut self, row: usize, col: usize) -> (out: RevealOutcome)
        requires
            old(self)@.wf(),
            old(self)@.phase == Phase::InProgress,
            old(self)@.board.in_bounds(row as int, col as int),
        ensures
            final(self)@.wf(),
            reveal_step(old(self)@, final(self)@, row as int, col as int, out.phase, coords_view(out.revealed@)),
    {
        let x = self.board.cell_in_grid(row, col);
        if x.is_flagged || x.is_revealed {
            return RevealOutcome { phase: self.phase, revealed: Vec::new() };
        }
        if x.is_mine {
            let updated = Cell { is_revealed: true, is_flagged: x.is_flagged, is_mine: x.is_mine, adjacent_mines: x.adjacent_mines };
            proof {
                lemma_with_cell(self.board@, row as int, col as int, updated);
            }
            self.board.set_cell(row, col, updated);
            self.phase = Phase::Lost;
            let mut revealed: Vec<(usize, usize)> = Vec::new();
            revealed.push((row, col));
            proof {
                assert(coords_view(revealed@) =~= seq![(row as int, col as int)]);
            }
            return RevealOutcome { phase: Phase::Lost, revealed };
        }
        let revealed = flood_reveal(&mut self.board, row, col);
        let won = self.board.all_safe_cells_revealed();
        self.phase = if won { Phase::Won } else { Phase::InProgress };
        RevealOutcome { phase: self.phase, revealed }
    }

    /// Reveals `(row, col)`. On the first reveal the mines are placed at exactly the
    /// cells of `mines`, which must number the session's mine count and keep clear of
    /// the row and the column of the click; later reveals leave `mines` aside.
    pub fn reveal_cell_with_mines(&mut self, row: usize, col: usize, mines: &Vec<(usize, usize)>) -> (res: Result<RevealOutcome, GameError>)
        requires
            old(self)@.wf(),
        ensures
            final(self)@.wf(),
            res is Err ==> final(self)@ == old(self)@,
            old(self)@.is_over() ==> res == Err::<RevealOutcome, GameError>(GameError::GameOver),
            !old(self)@.is_over() && !old(self)@.board.in_bounds(row as int, col as int)
                ==> res == Err::<RevealOutcome, GameError>(GameError::OutOfBounds),
            !old(self)@.is_over() && old(self)@.board.in_bounds(row as int, col as int)
                && old(self)@.phase == Phase::InProgress ==> res is Ok && reveal_step(
                old(self)@,
                final(self)@,
                row as int,
                col as int,
                res->Ok_0.phase,
                coords_view(res->Ok_0.revealed@),
            ),
            old(self)@.phase == Phase::NotStarted && old(self)@.board.in_bounds(row as int, col as int)
                ==> {
                let cv = coords_view(mines@);
                let b = old(self)@.board;
                &&& mines@.len() != old(self)@.mine_count ==> res == Err::<RevealOutcome, GameError>(GameError::InvalidLayout)
                &&& mines@.len() == old(self)@.mine_count && !layout_in_bounds(b, cv, row as int, col as int)
                    ==> res == Err::<RevealOutcome, GameError>(GameError::OutOfBounds)
                &&& mines@.len() == old(self)@.mine_count && layout_in_bounds(b, cv, row as int, col as int)
                    && !valid_layout(b, cv, row as int, col as int) ==> res == Err::<RevealOutcome, GameError>(GameError::InvalidLayout)
                &&& mines@.len() == old(self)@.mine_count && layout_in_bounds(b, cv, row as int, col as int)
                    && valid_layout(b, cv, row as int, col as int) ==> res is Ok && exists|mid: BoardView|
                    #[trigger] mines_laid(b, mid, cv) && reveal_step(
                        started(old(self)@, mid),
                        final(self)@,
                        row as int,
                        col as int,
                        res->Ok_0.phase,
                        coords_view(res->Ok_0.revealed@),
                    )
            },
    {
        match self.phase {
            Phase::Won | Phase::Lost => {
                return Err(GameError::GameOver);
            },
            _ => {},
        }
        if !self.board.is_in_bounds(row, col) {
            return Err(GameError::OutOfBounds);
        }
        let ghost before = self@;
        if let Phase::NotStarted = self.phase {
            if mines.len() != self.mine_count {
                return Err(GameError::InvalidLayout);
            }
            match self.board.place_mines_at(mines, row, col) {
                Err(e) => {
                    return Err(e);
                },
                Ok(()) => {},
            }
            self.phase = Phase::InProgress;
            let ghost mid = self.board@;
            proof {
                assert(self@ == started(before, mid));
            }
            let out = self.reveal_placed(row, col);
            proof {
                assert(mines_laid(before.board, mid, coords_view(mines@)));
            }
            return Ok(out);
        }
        Ok(self.reveal_placed(row, col))
    }

    /// Reveals `(row, col)`. On the first reveal the mines are first placed at random,
    /// never in the row or the column of the click.
    pub fn reveal_cell(&mut self, row: usize, col: usize, rng: &mut rand::rngs::StdRng) -> (res: Result<RevealOutcome, GameError>)
        requires
            old(self)@.wf(),
        ensures
            final(self)@.wf(),
            res is Err ==> final(self)@ == old(self)@,
            old(self)@.is_over() ==> res == Err::<RevealOutcome, GameError>(GameError::GameOver),
            !old(self)@.is_over() && !old(self)@.board.in_bounds(row as int, col as int)
                ==> res == Err::<RevealOutcome, GameError>(GameError::OutOfBounds),
            !old(self)@.is_over() && old(self)@.board.in_bounds(row as int, col as int)
                && old(self)@.phase == Phase::InProgress ==> res is Ok && reveal_step(
                old(self)@,
                final(self)@,
                row as int,
                col as int,
                res->Ok_0.phase,
                coords_view(res->Ok_0.revealed@),
            ),
            old(self)@.phase == Phase::NotStarted && old(self)@.board.in_bounds(row as int, col as int)
                ==> res is Ok && exists|
                layout: Seq<(int, int)>,
                mid: BoardView,
            |
                layout.len() == old(self)@.mine_count
                && valid_layout(old(self)@.board, layout, row as int, col as int)
                && #[trigger] mines_laid(old(self)@.board, mid, layout) && reveal_step(
                    started(old(self)@, mid),
                    final(self)@,
                    row as int,
                    col as int,
                    res->Ok_0.phase,
                    coords_view(res->Ok_0.revealed@),
                ),
    {
        match self.phase {
            Phase::Won | Phase::Lost => {
                return Err(GameError::GameOver);
            },
            _ => {},
        }
        if !self.board.is_in_bounds(row, col) {
            return Err(GameError::OutOfBounds);
        }
        if let Phase::NotStarted = self.phase {
            let layout = match self.board.random_layout(self.mine_count, row, col, rng) {
                Ok(l) => l,
                Err(e) => {
                    return Err(e);
                },
            };
            return self.reveal_cell_with_mines(row, col, &layout);
        }
        Ok(self.reveal_placed(row, col))
    }

    /// Flips the flag of `(row, col)` and moves the counter the other way. A revealed
    /// cell is left as it is. The counter is not bounded below.
    pub fn toggle_flag(&mut self, row: usize, col: usize) -> (res: Result<FlagOutcome, GameError>)
        requires
            old(self)@.wf(),
        ensures
            final(self)@.wf(),
            res is Err ==> final(self)@ == old(self)@,
            old(self)@.is_over() ==> res == Err::<FlagOutcome, GameError>(GameError::GameOver),
            !old(self)@.is_over() && !old(self)@.board.in_bounds(row as int, col as int)
                ==> res == Err::<FlagOutcome, GameError>(GameError::OutOfBounds),
            old(self)@.phase == Phase::NotStarted && old(self)@.board.in_bounds(row as int, col as int)
                ==> res == Err::<FlagOutcome, GameError>(GameError::NotYetStarted),
            old(self)@.phase == Phase::InProgress && old(self)@.board.in_bounds(row as int, col as int) ==> {
                &&& final(self)@ == old(self)@.after_toggle(row as int, col as int)
                &&& res == Ok::<FlagOutcome, GameError>(
                    FlagOutcome {
                        is_flagged: final(self)@.board.cell(row as int, col as int).is_flagged,
                        flags_remaining: final(self)@.flags_remaining as isize,
                    },
                )
            },
    {
        match self.phase {
            Phase::Won | Phase::Lost => {
                return Err(GameError::GameOver);
            },
            _ => {},
        }
        if !self.board.is_in_bounds(row, col) {
            return Err(GameError::OutOfBounds);
        }
        if let Phase::NotStarted = self.phase {
            return Err(GameError::NotYetStarted);
        }
        let x = self.board.cell_in_grid(row, col);
        if !x.is_revealed {
            let updated = Cell { is_revealed: x.is_revealed, is_flagged: !x.is_flagged, is_mine: x.is_mine, adjacent_mines: x.adjacent_mines };
            proof {
                lemma_with_cell(self.board@, row as int, col as int, updated);
                lemma_count_flags_bound(self.board@.cells);
                lemma_count_flags_bound(self.board@.with_cell(row as int, col as int, updated).cells);
            }
            self.board.set_cell(row, col, updated);
            if updated.is_flagged {
                self.flags_remaining = self.flags_remaining - 1;
            } else {
                self.flags_remaining = self.flags_remaining + 1;
            }
        }
        let y = self.board.cell_in_grid(row, col);
        Ok(FlagOutcome { is_flagged: y.is_flagged, flags_remaining: self.flags_remaining })
    }
}

} // verus!
