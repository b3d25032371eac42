use vstd::prelude::*;
use crate::grid::{in_bounds, CellSet, Direction};
use crate::minefield::{
    all_safe_revealed, count_adjacent_mines, eligible, lemma_revealed_after_basics, mines_around,
    reveal_adjacent_zeros, revealed_after, toggle_flag, Minefield,
};

verus! {

/// Where a game of minesweeper stands.
#[derive(Clone, Copy, Debug, PartialEq, Eq, Structural)]
pub enum Outcome {
    InProgress,
    Won,
    Lost,
}

/// The outcome from the mines, the revealed cells and the cell revealed last:
/// lost when that cell is a mine, won when every safe cell is revealed.
pub open spec fn outcome_of(
    mines: Set<(int, int)>,
    revealed: Set<(int, int)>,
    w: int,
    h: int,
    last: Option<(int, int)>,
) -> Outcome {
    if last matches Some(c) && mines.contains(c) {
        Outcome::Lost
    } else if all_safe_revealed(mines, revealed, w, h) {
        Outcome::Won
    } else {
        Outcome::InProgress
    }
}

/// The phase of a game: ready until the first reveal, then in progress
/// until it is won or lost, which it stays.
#[derive(Clone, Copy, Debug, PartialEq, Eq, Structural)]
pub enum Phase {
    Ready,
    InProgress,
    Won,
    Lost,
}

/// What a cell shows.
#[derive(Clone, Copy, Debug, PartialEq, Eq, Structural)]
pub enum CellView {
    /// The cursor is on it.
    Cursor,
    /// It carries a flag.
    Flag,
    /// A revealed mine.
    Mine,
    /// A revealed safe cell, with the number of mines around it.
    Count(u8),
    /// Not revealed.
    Hidden,
}

/// A game of minesweeper: a field, the revealed and flagged cells, a cursor,
/// and the cell revealed last.
pub struct MinesweeperGame {
    field: Minefield,
    revealed: CellSet,
    flagged: CellSet,
    cursor_x: usize,
    cursor_y: usize,
    last: Option<(usize, usize)>,
}

impl MinesweeperGame {
    pub closed spec fn w(&self) -> nat {
        self.field.w()
    }

    pub closed spec fn h(&self) -> nat {
        self.field.h()
    }

    pub closed spec fn mines(&self) -> Set<(int, int)> {
        self.field@
    }

    pub closed spec fn revealed(&self) -> Set<(int, int)> {
        self.revealed@
    }

    pub closed spec fn flagged(&self) -> Set<(int, int)> {
        self.flagged@
    }

    pub closed spec fn cursor(&self) -> (int, int) {
        (self.cursor_x as int, self.cursor_y as int)
    }

    pub closed spec fn last(&self) -> Option<(int, int)> {
        match self.last {
            Some(c) => Some((c.0 as int, c.1 as int)),
            None => None,
        }
    }

    pub open spec fn outcome_spec(&self) -> Outcome {
        outcome_of(self.mines(), self.revealed(), self.w() as int, self.h() as int, self.last())
    }

    /// The parts agree on their size, the cursor is on the grid, no cell is
    /// both revealed and flagged, and the cell revealed last is revealed.
    pub closed spec fn wf(&self) -> bool {
        &&& self.field.wf()
        &&& self.revealed.wf()
        &&& self.flagged.wf()
        &&& self.revealed.w() == self.field.w()
        &&& self.revealed.h() == self.field.h()
        &&& self.flagged.w() == self.field.w()
        &&& self.flagged.h() == self.field.h()
        &&& (self.field.w() > 0 ==> self.cursor_x < self.field.w())
        &&& (self.field.h() > 0 ==> self.cursor_y < self.field.h())
        &&& self.field.w() == 0 ==> self.cursor_x == 0
        &&& self.field.h() == 0 ==> self.cursor_y == 0
        &&& self.revealed@.disjoint(self.flagged@)
        &&& (self.last matches Some(c) ==> self.revealed@.contains((c.0 as int, c.1 as int)))
    }

    /// The revealed and flagged cells never overlap.
    pub proof fn lemma_disjoint(&self)
        requires
            self.wf(),
        ensures
            self.revealed().disjoint(self.flagged()),
    {
    }

    /// A new game on `field`: nothing revealed or flagged, the cursor at
    /// `(0, 0)`.
    pub fn new(field: Minefield) -> (g: MinesweeperGame)
        requires
            field.wf(),
        ensures
            g.wf(),
            g.w() == field.w(),
            g.h() == field.h(),
            g.mines() == field@,
            g.revealed() == Set::<(int, int)>::empty(),
            g.flagged() == Set::<(int, int)>::empty(),
            g.cursor() == (0int, 0int),
            g.last() is None,
    {
        proof {
            field.lemma_wf();
        }
        let w = field.width();
        let h = field.height();
        let revealed = CellSet::new(w, h);
        let flagged = CellSet::new(w, h);
        MinesweeperGame { field, revealed, flagged, cursor_x: 0, cursor_y: 0, last: None }
    }

    pub fn field(&self) -> (f: &Minefield)
        ensures
            f@ == self.mines(),
            f.w() == self.w(),
            f.h() == self.h(),
            self.wf() ==> f.wf(),
    {
        &self.field
    }

    pub fn cursor_position(&self) -> (r: (usize, usize))
        ensures
            (r.0 as int, r.1 as int) == self.cursor(),
    {
        (self.cursor_x, self.cursor_y)
    }

    pub fn is_revealed(&self, x: usize, y: usize) -> (r: bool)
        requires
            self.wf(),
        ensures
            r == self.revealed().contains((x as int, y as int)),
    {
        self.revealed.contains(x, y)
    }

    pub fn is_flagged(&self, x: usize, y: usize) -> (r: bool)
        requires
            self.wf(),
        ensures
            r == self.flagged().contains((x as int, y as int)),
    {
        self.flagged.contains(x, y)
    }

    /// Moves the cursor one cell, stopping at the edges of the grid.
    pub fn move_cursor(&mut self, d: Direction)
        requires
            old(self).wf(),
        ensures
            final(self).wf(),
            final(self).w() == old(self).w(),
            final(self).h() == old(self).h(),
            final(self).mines() == old(self).mines(),
            final(self).revealed() == old(self).revealed(),
            final(self).flagged() == old(self).flagged(),
            final(self).last() == old(self).last(),
            final(self).cursor() == match d {
                Direction::Up => (
                    old(self).cursor().0,
                    if old(self).cursor().1 > 0 {
                        old(self).cursor().1 - 1
                    } else {
                        0
                    },
                ),
                Direction::Down => (
                    old(self).cursor().0,
                    if old(self).cursor().1 + 1 < old(self).h() {
                        old(self).cursor().1 + 1
                    } else {
                        old(self).cursor().1
                    },
                ),
                Direction::Left => (
                    if old(self).cursor().0 > 0 {
                        old(self).cursor().0 - 1
                    } else {
                        0
                    },
                    old(self).cursor().1,
                ),
                Direction::Right => (
                    if old(self).cursor().0 + 1 < old(self).w() {
                        old(self).cursor().0 + 1
                    } else {
                        old(self).cursor().0
                    },
                    old(self).cursor().1,
                ),
            },
    {
        let w = self.field.width();
        let h = self.field.height();
        match d {
            Direction::Up => {
                self.cursor_y = self.cursor_y.saturating_sub(1);
            },
            Direction::Down => {
                if self.cursor_y + 1 < h {
                    self.cursor_y = self.cursor_y + 1;
                }
            },
            Direction::Left => {
                self.cursor_x = self.cursor_x.saturating_sub(1);
            },
            Direction::Right => {
                if self.cursor_x + 1 < w {
                    self.cursor_x = self.cursor_x + 1;
                }
            },
        }
    }

    /// The outcome so far.
    pub fn outcome(&self) -> (r: Outcome)
        requires
            self.wf(),
        ensures
            r == self.outcome_spec(),
    {
        if let Some((x, y)) = self.last {
            if self.field.is_mine(x, y) {
                return Outcome::Lost;
            }
        }
        assert(!(self.last() matches Some(c) && self.mines().contains(c)));
        let w = self.field.width();
        let h = self.field.height();
        let mut y: usize = 0;
        while y < h
            invariant
                self.wf(),
                w == self.w(),
                h == self.h(),
                y <= h,
                !(self.last() matches Some(c) && self.mines().contains(c)),
                forall|c: (int, int)|
                    in_bounds(w as int, h as int, c) && c.1 < y && !self.mines().contains(c)
                        ==> #[trigger] self.revealed().contains(c),
            decreases h - y,
        {
            let mut x: usize = 0;
            while x < w
                invariant
                    self.wf(),
                    w == self.w(),
                    h == self.h(),
                    y < h,
                    x <= w,
                    !(self.last() matches Some(c) && self.mines().contains(c)),
                    forall|c: (int, int)|
                        in_bounds(w as int, h as int, c) && (c.1 < y || (c.1 == y && c.0 < x))
                            && !self.mines().contains(c) ==> #[trigger] self.revealed().contains(c),
                decreases w - x,
            {
                if !self.field.is_mine(x, y) && !self.revealed.contains(x, y) {
                    assert(!all_safe_revealed(self.mines(), self.revealed(), w as int, h as int)) by {
                        assert(in_bounds(w as int, h as int, (x as int, y as int)));
                    }
                    return Outcome::InProgress;
                }
                x = x + 1;
            }
            y = y + 1;
        }
        Outcome::Won
    }

    /// The phase of the game: `Ready` while nothing has been revealed and the
    /// game is neither won nor lost, else the outcome.
    pub fn phase(&self) -> (r: Phase)
        requires
            self.wf(),
        ensures
            r == match self.outcome_spec() {
                Outcome::Won => Phase::Won,
                Outcome::Lost => Phase::Lost,
                Outcome::InProgress => if self.last() is None {
                    Phase::Ready
                } else {
                    Phase::InProgress
                },
            },
    {
        match self.outcome() {
            Outcome::Won => Phase::Won,
            Outcome::Lost => Phase::Lost,
            Outcome::InProgress => if self.last.is_none() {
                Phase::Ready
            } else {
                Phase::InProgress
            },
        }
    }

    /// Reveals `(x, y)` and the cells it cascades to, and records it as the
    /// cell revealed last. Nothing happens once the game is won or lost, nor
    /// for a cell off the grid, revealed already, or flagged.
    pub fn reveal_cell(&mut self, x: usize, y: usize)
        requires
            old(self).wf(),
        ensures
            final(self).wf(),
            final(self).w() == old(self).w(),
            final(self).h() == old(self).h(),
            final(self).mines() == old(self).mines(),
            final(self).flagged() == old(self).flagged(),
            final(self).cursor() == old(self).cursor(),
            old(self).outcome_spec() != Outcome::InProgress || !eligible(
                old(self).revealed(),
                old(self).flagged(),
                old(self).w() as int,
                old(self).h() as int,
                (x as int, y as int),
            ) ==> final(self).revealed() == old(self).revealed() && final(self).last() == old(
                self,
            ).last(),
            old(self).outcome_spec() == Outcome::InProgress && eligible(
                old(self).revealed(),
                old(self).flagged(),
                old(self).w() as int,
                old(self).h() as int,
                (x as int, y as int),
            ) ==> final(self).revealed() == revealed_after(
                old(self).mines(),
                old(self).revealed(),
                old(self).flagged(),
                old(self).w() as int,
                old(self).h() as int,
                (x as int, y as int),
            ) && final(self).last() == Some((x as int, y as int)),
    {
        if self.outcome() != Outcome::InProgress {
            return;
        }
        if x >= self.field.width() || y >= self.field.height() || self.revealed.contains(x, y)
            || self.flagged.contains(x, y) {
            return;
        }
        let ghost before = self.revealed@;
        reveal_adjacent_zeros(&self.field, &mut self.revealed, &self.flagged, x, y);
        self.last = Some((x, y));
        proof {
            lemma_revealed_after_basics(
                self.field@,
                before,
                self.flagged@,
                self.w() as int,
                self.h() as int,
                (x as int, y as int),
            );
            self.revealed.lemma_wf();
        }
    }

    /// Reveals the cell under the cursor.
    pub fn reveal_at_cursor(&mut self)
        requires
            old(self).wf(),
        ensures
            final(self).wf(),
            final(self).w() == old(self).w(),
            final(self).h() == old(self).h(),
            final(self).mines() == old(self).mines(),
            final(self).flagged() == old(self).flagged(),
            final(self).cursor() == old(self).cursor(),
            old(self).outcome_spec() != Outcome::InProgress || !eligible(
                old(self).revealed(),
                old(self).flagged(),
                old(self).w() as int,
                old(self).h() as int,
                old(self).cursor(),
            ) ==> final(self).revealed() == old(self).revealed() && final(self).last() == old(
                self,
            ).last(),
            old(self).outcome_spec() == Outcome::InProgress && eligible(
                old(self).revealed(),
                old(self).flagged(),
                old(self).w() as int,
                old(self).h() as int,
                old(self).cursor(),
            ) ==> final(self).revealed() == revealed_after(
                old(self).mines(),
                old(self).revealed(),
                old(self).flagged(),
                old(self).w() as int,
                old(self).h() as int,
                old(self).cursor(),
            ) && final(self).last() == Some(old(self).cursor()),
    {
        let x = self.cursor_x;
        let y = self.cursor_y;
        self.reveal_cell(x, y);
    }

    /// Flags the hidden cell `(x, y)` or takes its flag away. Nothing happens
    /// once the game is won or lost, nor for a revealed cell or one off the
    /// grid.
    pub fn toggle_flag(&mut self, x: usize, y: usize)
        requires
            old(self).wf(),
        ensures
            final(self).wf(),
            final(self).w() == old(self).w(),
            final(self).h() == old(self).h(),
            final(self).mines() == old(self).mines(),
            final(self).revealed() == old(self).revealed(),
            final(self).cursor() == old(self).cursor(),
            final(self).last() == old(self).last(),
            old(self).outcome_spec() != Outcome::InProgress || !in_bounds(
                old(self).w() as int,
                old(self).h() as int,
                (x as int, y as int),
            ) || old(self).revealed().contains((x as int, y as int)) ==> final(self).flagged() == old(
                self,
            ).flagged(),
            old(self).outcome_spec() == Outcome::InProgress && in_bounds(
                old(self).w() as int,
                old(self).h() as int,
                (x as int, y as int),
            ) && !old(self).revealed().contains((x as int, y as int)) ==> if old(
                self,
            ).flagged().contains((x as int, y as int)) {
                final(self).flagged() == old(self).flagged().remove((x as int, y as int))
            } else {
                final(self).flagged() == old(self).flagged().insert((x as int, y as int))
            },
    {
        if self.outcome() != Outcome::InProgress {
            return;
        }
        toggle_flag(&mut self.flagged, &self.revealed, x, y);
    }

    /// Flags or unflags the cell under the cursor.
    pub fn toggle_flag_at_cursor(&mut self)
        requires
            old(self).wf(),
        ensures
            final(self).wf(),
            final(self).w() == old(self).w(),
            final(self).h() == old(self).h(),
            final(self).mines() == old(self).mines(),
            final(self).revealed() == old(self).revealed(),
            final(self).cursor() == old(self).cursor(),
            final(self).last() == old(self).last(),
            old(self).outcome_spec() != Outcome::InProgress || !in_bounds(
                old(self).w() as int,
                old(self).h() as int,
                old(self).cursor(),
            ) || old(self).revealed().contains(old(self).cursor()) ==> final(self).flagged() == old(
                self,
            ).flagged(),
            old(self).outcome_spec() == Outcome::InProgress && in_bounds(
                old(self).w() as int,
                old(self).h() as int,
                old(self).cursor(),
            ) && !old(self).revealed().contains(old(self).cursor()) ==> if old(
                self,
            ).flagged().contains(old(self).cursor()) {
                final(self).flagged() == old(self).flagged().remove(old(self).cursor())
            } else {
                final(self).flagged() == old(self).flagged().insert(old(self).cursor())
            },
    {
        let x = self.cursor_x;
        let y = self.cursor_y;
        self.toggle_flag(x, y);
    }

    /// What the cell `(x, y)` shows during play: the cursor over all, then a
    /// flag, then a revealed mine or count, else hidden.
    pub fn cell_view(&self, x: usize, y: usize) -> (r: CellView)
        requires
            self.wf(),
        ensures
            r == if self.cursor() == (x as int, y as int) {
                CellView::Cursor
            } else if self.flagged().contains((x as int, y as int)) {
                CellView::Flag
            } else if self.revealed().contains((x as int, y as int)) {
                if self.mines().contains((x as int, y as int)) {
                    CellView::Mine
                } else {
                    CellView::Count(mines_around(self.mines(), (x as int, y as int)) as u8)
                }
            } else {
                CellView::Hidden
            },
    {
        if x == self.cursor_x && y == self.cursor_y {
            CellView::Cursor
        } else if self.flagged.contains(x, y) {
            CellView::Flag
        } else if self.revealed.contains(x, y) {
            self.revealed_view(x, y)
        } else {
            CellView::Hidden
        }
    }

    /// What the cell `(x, y)` shows once the game is lost: every mine, and
    /// the counts of the revealed cells; `None` for the others.
    pub fn end_view(&self, x: usize, y: usize) -> (r: Option<CellView>)
        requires
            self.wf(),
        ensures
            r == if self.mines().contains((x as int, y as int)) {
                Some(CellView::Mine)
            } else if self.revealed().contains((x as int, y as int)) {
                Some(CellView::Count(mines_around(self.mines(), (x as int, y as int)) as u8))
            } else {
                None::<CellView>
            },
    {
        if self.field.is_mine(x, y) {
            Some(CellView::Mine)
        } else if self.revealed.contains(x, y) {
            Some(self.revealed_view(x, y))
        } else {
            None
        }
    }

    fn revealed_view(&self, x: usize, y: usize) -> (r: CellView)
        requires
            self.wf(),
            self.revealed().contains((x as int, y as int)),
        ensures
            r == if self.mines().contains((x as int, y as int)) {
                CellView::Mine
            } else {
                CellView::Count(mines_around(self.mines(), (x as int, y as int)) as u8)
            },
    {
        proof {
            self.revealed.lemma_wf();
        }
        if self.field.is_mine(x, y) {
            CellView::Mine
        } else {
            CellView::Count(count_adjacent_mines(&self.field, x, y))
        }
    }
}

} // verus!
