//! The engine: one live generation, its dimensions and a random source.

use vstd::prelude::*;
use crate::array::{lemma_offset_in_range, offset_of, Array2D};
use crate::cell::{empty_cell, within_cap, Cell, Color, COMBAT_CAP};
use crate::error::GridError;
use crate::generation::{
    all_within_cap, generation_after, lemma_coord_of_offset,
    lemma_empty_cell_among_quiet_neighbours, lemma_generation_step, pick_allowed, picks_allowed,
    quiet_around, take_turn,
};
use crate::random::pick_index;
use crate::rules::{is_neighbour, neighbours, Point};

verus! {

/// A rock-paper-scissors automaton.
///
/// The view is the current generation in row-major order. At all times the
/// grid has no zero side, holds all its cells, and every cell has a strength
/// within `0..=COMBAT_CAP`.
pub struct RpsAutomata {
    board: Array2D<Cell>,
    size: (usize, usize),
    rng: rand::rngs::StdRng,
}

impl View for RpsAutomata {
    type V = Seq<Cell>;

    closed spec fn view(&self) -> Seq<Cell> {
        self.board@
    }
}

impl RpsAutomata {
    #[verifier::type_invariant]
    spec fn inv(&self) -> bool {
        &&& self.board.spec_dim() == self.size
        &&& self.board.filled()
        &&& self.size.0 > 0
        &&& self.size.1 > 0
        &&& all_within_cap(self.board@)
    }

    /// The dimensions `(size_x, size_y)` of the grid.
    pub closed spec fn spec_dimensions(&self) -> (usize, usize) {
        self.size
    }

    /// The cell at `(x, y)` of the current generation.
    pub open spec fn spec_cell(&self, x: usize, y: usize) -> Cell
        recommends
            x < self.spec_dimensions().0,
            y < self.spec_dimensions().1,
    {
        self@[offset_of(self.spec_dimensions().0 as int, x as int, y as int)]
    }

    /// An engine over a `size_x` by `size_y` grid of empty cells that draws
    /// from `rng`. A grid with a zero side is refused.
    pub fn new(size_x: usize, size_y: usize, rng: rand::rngs::StdRng) -> (r: Result<
        Self,
        GridError,
    >)
        requires
            size_x * size_y <= usize::MAX,
        ensures
            match r {
                Ok(a) => {
                    &&& size_x > 0
                    &&& size_y > 0
                    &&& a.spec_dimensions() == (size_x, size_y)
                    &&& a@ == Seq::new((size_x * size_y) as nat, |i: int| empty_cell())
                },
                Err(e) => (size_x == 0 || size_y == 0) && e == GridError::InvalidDimensions,
            },
    {
        if size_x == 0 || size_y == 0 {
            return Err(GridError::InvalidDimensions);
        }
        let board: Array2D<Cell> = Array2D::empty(size_x, size_y);
        assert(board@ =~= Seq::new((size_x * size_y) as nat, |i: int| empty_cell()));
        Ok(RpsAutomata { board, size: (size_x, size_y), rng })
    }

    /// The dimensions `(size_x, size_y)` of the grid; neither is zero.
    pub fn dimensions(&self) -> (r: (usize, usize))
        ensures
            r == self.spec_dimensions(),
            r.0 > 0,
            r.1 > 0,
            self@.len() == r.0 * r.1,
    {
        proof {
            use_type_invariant(self);
        }
        self.size
    }

    /// Checked read of the cell at `(x, y)`.
    pub fn read_cell(&self, x: usize, y: usize) -> (r: Result<Cell, GridError>)
        ensures
            match r {
                Ok(c) => {
                    &&& x < self.spec_dimensions().0
                    &&& y < self.spec_dimensions().1
                    &&& c == self.spec_cell(x, y)
                    &&& within_cap(c)
                },
                Err(e) => {
                    &&& (x >= self.spec_dimensions().0 || y >= self.spec_dimensions().1)
                    &&& e == GridError::OutOfBounds
                },
            },
    {
        proof {
            use_type_invariant(self);
            if x < self.size.0 && y < self.size.1 {
                lemma_offset_in_range(self.size.0 as int, self.size.1 as int, x as int, y as int);
            }
        }
        match self.board.at(x, y) {
            Ok(c) => Ok(*c),
            Err(e) => Err(e),
        }
    }

    /// Checked overwrite of the cell at `(x, y)` with any cell whose strength
    /// is within `0..=COMBAT_CAP`. A coordinate outside the grid is reported
    /// first; on either error nothing changes.
    pub fn set_cell(&mut self, x: usize, y: usize, cell: Cell) -> (r: Result<(), GridError>)
        ensures
            final(self).spec_dimensions() == old(self).spec_dimensions(),
            all_within_cap(final(self)@),
            match r {
                Ok(_) => {
                    &&& x < old(self).spec_dimensions().0
                    &&& y < old(self).spec_dimensions().1
                    &&& within_cap(cell)
                    &&& final(self)@ == old(self)@.update(
                        offset_of(old(self).spec_dimensions().0 as int, x as int, y as int),
                        cell,
                    )
                },
                Err(e) => {
                    &&& final(self)@ == old(self)@
                    &&& if x >= old(self).spec_dimensions().0 || y >= old(self).spec_dimensions().1 {
                        e == GridError::OutOfBounds
                    } else {
                        !within_cap(cell) && e == GridError::InvalidStrength
                    }
                },
            },
    {
        proof {
            use_type_invariant(&*self);
            if x < self.size.0 && y < self.size.1 {
                lemma_offset_in_range(self.size.0 as int, self.size.1 as int, x as int, y as int);
            }
        }
        if x >= self.size.0 || y >= self.size.1 {
            Err(GridError::OutOfBounds)
        } else if cell.strength < 0 || cell.strength > COMBAT_CAP {
            Err(GridError::InvalidStrength)
        } else {
            self.board.put(x, y, cell);
            Ok(())
        }
    }

    /// Paints the cell at `(x, y)`: it takes `color` and the strength
    /// `Cell::max_strength`. A coordinate outside the grid is refused and nothing
    /// changes.
    pub fn paint_cell(&mut self, x: usize, y: usize, color: Color) -> (r: Result<(), GridError>)
        ensures
            final(self).spec_dimensions() == old(self).spec_dimensions(),
            all_within_cap(final(self)@),
            match r {
                Ok(_) => {
                    &&& x < old(self).spec_dimensions().0
                    &&& y < old(self).spec_dimensions().1
                    &&& final(self)@ == old(self)@.update(
                        offset_of(old(self).spec_dimensions().0 as int, x as int, y as int),
                        (Cell { strength: Cell::max_strength, color }),
                    )
                },
                Err(e) => {
                    &&& (x >= old(self).spec_dimensions().0 || y >= old(self).spec_dimensions().1)
                    &&& e == GridError::OutOfBounds
                    &&& final(self)@ == old(self)@
                },
            },
    {
        self.set_cell(x, y, Cell { strength: Cell::max_strength, color })
    }

    /// Advances the automaton by one generation.
    ///
    /// Every cell takes its turn in row-major order. A coloured cell meets
    /// one of the cells that touch it, drawn from the random source; what
    /// the meeting does is decided from the generation the tick started
    /// from and written to the next one, which replaces the current one as a
    /// whole when all turns are over. Whatever was drawn, the new generation
    /// is the one that some allowed sequence of meetings leads to, and an
    /// empty cell that no coloured cell of positive strength touches is left
    /// as it was.
    pub fn update(&mut self)
        ensures
            final(self).spec_dimensions() == old(self).spec_dimensions(),
            final(self)@.len() == old(self)@.len(),
            all_within_cap(final(self)@),
            exists|picks: Seq<Option<Point>>|
                {
                    &&& picks.len() == old(self)@.len()
                    &&& picks_allowed(old(self)@, old(self).spec_dimensions(), picks)
                    &&& final(self)@ == #[trigger] generation_after(
                        old(self)@,
                        old(self).spec_dimensions().0,
                        picks,
                    )
                },
            forall|c: Point|
                {
                    &&& c.0 < old(self).spec_dimensions().0
                    &&& c.1 < old(self).spec_dimensions().1
                    &&& old(self).spec_cell(c.0, c.1).color == Color::White
                    &&& #[trigger] quiet_around(old(self)@, old(self).spec_dimensions(), c)
                } ==> final(self).spec_cell(c.0, c.1) == old(self).spec_cell(c.0, c.1),
    {
        proof {
            use_type_invariant(&*self);
        }
        let size_x: usize = self.size.0;
        let size_y: usize = self.size.1;
        let ghost cur = self.board@;
        let ghost board = self.board;
        let ghost mut picks: Seq<Option<Point>> = Seq::empty();
        let mut new_board: Array2D<Cell> = self.board.clone();
        assert(new_board@ =~= self.board@);
        let mut y: usize = 0;
        while y < size_y
            invariant
                y <= size_y,
                self.board == board,
                self.size == (size_x, size_y),
                self.inv(),
                cur == board@,
                new_board.spec_dim() == (size_x, size_y),
                new_board@.len() == cur.len(),
                all_within_cap(new_board@),
                picks.len() == size_x * y,
                picks_allowed(cur, (size_x, size_y), picks),
                new_board@ == generation_after(cur, size_x, picks),
            decreases size_y - y,
        {
            let mut x: usize = 0;
            while x < size_x
                invariant
                    y < size_y,
                    x <= size_x,
                    self.board == board,
                    self.size == (size_x, size_y),
                    self.inv(),
                    cur == board@,
                    new_board.spec_dim() == (size_x, size_y),
                    new_board@.len() == cur.len(),
                    all_within_cap(new_board@),
                    picks.len() == size_x * y + x,
                    picks_allowed(cur, (size_x, size_y), picks),
                    new_board@ == generation_after(cur, size_x, picks),
                decreases size_x - x,
            {
                let ghost i = offset_of(size_x as int, x as int, y as int);
                let ghost mut pick: Option<Point> = None;
                proof {
                    lemma_offset_in_range(size_x as int, size_y as int, x as int, y as int);
                    lemma_coord_of_offset(size_x, x, y);
                }
                let el: Cell = *self.board.slot(x, y);
                match el.color {
                    Color::White => {},
                    _ => {
                        let possible = neighbours((x, y), (size_x, size_y));
                        if possible.len() > 0 {
                            let index: usize = pick_index(&mut self.rng, possible.len());
                            let c_rival: Point = possible[index];
                            proof {
                                pick = Some(c_rival);
                                assert(possible@.contains(c_rival));
                                lemma_offset_in_range(
                                    size_x as int,
                                    size_y as int,
                                    c_rival.0 as int,
                                    c_rival.1 as int,
                                );
                            }
                            // Both places lie inside both grids, so the turn is taken.
                            let _ = take_turn(&self.board, &mut new_board, (x, y), c_rival);
                        } else {
                            assert forall|p: Point| !is_neighbour((x, y), p, (size_x, size_y)) by {
                                assert(!possible@.contains(p));
                            }
                        }
                    },
                }
                proof {
                    assert(pick_allowed(cur, (size_x, size_y), i, pick));
                    lemma_generation_step(cur, size_x, picks, pick);
                    let longer = picks.push(pick);
                    assert forall|k: int| 0 <= k < longer.len() implies pick_allowed(
                        cur,
                        (size_x, size_y),
                        k,
                        #[trigger] longer[k],
                    ) by {
                        if k < picks.len() {
                            assert(longer[k] == picks[k]);
                        }
                    }
                    picks = longer;
                }
                x += 1;
            }
            proof {
                assert(size_x * y + size_x == size_x * (y + 1)) by (nonlinear_arith);
            }
            y += 1;
        }
        self.board = new_board;
        proof {
            assert(old(self).spec_dimensions() == (size_x, size_y));
            assert(picks.len() == old(self)@.len());
            assert(self@ == generation_after(old(self)@, old(self).spec_dimensions().0, picks));
            assert forall|c: Point|
                {
                    &&& c.0 < size_x
                    &&& c.1 < size_y
                    &&& old(self).spec_cell(c.0, c.1).color == Color::White
                    &&& #[trigger] quiet_around(cur, (size_x, size_y), c)
                } implies self.spec_cell(c.0, c.1) == old(self).spec_cell(c.0, c.1) by {
                lemma_empty_cell_among_quiet_neighbours(cur, (size_x, size_y), picks, c);
            }
        }
    }
}

} // verus!
