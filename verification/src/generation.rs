//! The mathematical model of one tick: the next generation as a function of
//! the current one and of the neighbour each acting cell happened to meet.

use vstd::prelude::*;
use vstd::arithmetic::div_mod::{
    lemma_div_pos_is_pos, lemma_fundamental_div_mod, lemma_fundamental_div_mod_converse,
    lemma_mod_bound, lemma_multiply_divide_lt,
};
use crate::array::{lemma_offset_in_range, offset_of, Array2D};
use crate::cell::{within_cap, Cell, Color};
use crate::error::GridError;
use crate::rules::{is_neighbour, meet, resolve, Point};

verus! {

/// The coordinate whose row-major offset is `i` in a grid `size_x` wide.
pub open spec fn coord_of(size_x: usize, i: int) -> Point {
    ((i % (size_x as int)) as usize, (i / (size_x as int)) as usize)
}

/// Every cell of `s` has a strength within `0..=COMBAT_CAP`.
pub open spec fn all_within_cap(s: Seq<Cell>) -> bool {
    forall|i: int| 0 <= i < s.len() ==> within_cap(#[trigger] s[i])
}

/// The generation under construction after the cell at offset `i` has had
/// its turn. `pick` is the neighbour it met, or `None` where it met none.
/// The acting cell and its rival are read from `cur`, the generation the
/// tick started from; only `next` is written.
pub open spec fn act(
    cur: Seq<Cell>,
    next: Seq<Cell>,
    size_x: usize,
    i: int,
    pick: Option<Point>,
) -> Seq<Cell> {
    match pick {
        None => next,
        Some(p) => {
            let j = offset_of(size_x as int, p.0 as int, p.1 as int);
            let out = meet(cur[i], cur[j], next[i], next[j]);
            next.update(i, out.0).update(j, out.1)
        },
    }
}

/// The generation under construction after the first `picks.len()` cells,
/// in row-major order, have had their turn. It starts as a copy of `cur`.
pub open spec fn generation_after(cur: Seq<Cell>, size_x: usize, picks: Seq<Option<Point>>) -> Seq<
    Cell,
>
    decreases picks.len(),
{
    if picks.len() == 0 {
        cur
    } else {
        act(
            cur,
            generation_after(cur, size_x, picks.drop_last()),
            size_x,
            picks.len() - 1,
            picks.last(),
        )
    }
}

/// What the cell at offset `i` may have met: a coloured cell meets one of
/// the cells that touch it; an empty cell, or a cell that nothing touches,
/// meets none.
pub open spec fn pick_allowed(cur: Seq<Cell>, size: (usize, usize), i: int, pick: Option<Point>) -> bool {
    match pick {
        Some(p) => cur[i].color != Color::White && is_neighbour(coord_of(size.0, i), p, size),
        None => cur[i].color == Color::White || forall|p: Point|
            !is_neighbour(coord_of(size.0, i), p, size),
    }
}

/// Every entry of `picks` is allowed for the cell it belongs to.
pub open spec fn picks_allowed(cur: Seq<Cell>, size: (usize, usize), picks: Seq<Option<Point>>) -> bool {
    forall|i: int| 0 <= i < picks.len() ==> pick_allowed(cur, size, i, #[trigger] picks[i])
}

/// No cell that touches `c` is coloured and has a positive strength.
pub open spec fn quiet_around(cur: Seq<Cell>, size: (usize, usize), c: Point) -> bool {
    forall|p: Point| #[trigger]
        is_neighbour(c, p, size) ==> {
            let n = cur[offset_of(size.0 as int, p.0 as int, p.1 as int)];
            n.color == Color::White || n.strength <= 0
        }
}

/// Both grids hold a cell at `c` and at `c_rival`.
pub open spec fn turn_possible(
    cur: Array2D<Cell>,
    next: Array2D<Cell>,
    c: Point,
    c_rival: Point,
) -> bool {
    &&& cur.holds(c.0, c.1)
    &&& cur.holds(c_rival.0, c_rival.1)
    &&& next.holds(c.0, c.1)
    &&& next.holds(c_rival.0, c_rival.1)
}

/// The cells of `next` after the cell at `c` has met the one at `c_rival`:
/// the two are read from `cur`, and the outcome of the meeting is written to
/// the same two places of `next`.
pub open spec fn turn(cur: Array2D<Cell>, next: Array2D<Cell>, c: Point, c_rival: Point) -> Seq<
    Cell,
> {
    let out = meet(
        cur.spec_at(c.0, c.1),
        cur.spec_at(c_rival.0, c_rival.1),
        next.spec_at(c.0, c.1),
        next.spec_at(c_rival.0, c_rival.1),
    );
    next@.update(offset_of(next.spec_dim().0 as int, c.0 as int, c.1 as int), out.0).update(
        offset_of(next.spec_dim().0 as int, c_rival.0 as int, c_rival.1 as int),
        out.1,
    )
}

/// Lets the cell at `c` of the current generation `cur` meet the cell at
/// `c_rival` and writes the outcome to `next`, the generation under
/// construction. Where either grid has no cell at one of the two places,
/// nothing is written.
pub fn take_turn(cur: &Array2D<Cell>, next: &mut Array2D<Cell>, c: Point, c_rival: Point) -> (r:
    Result<(), GridError>)
    ensures
        final(next).spec_dim() == old(next).spec_dim(),
        match r {
            Ok(_) => turn_possible(*cur, *old(next), c, c_rival) && final(next)@ == turn(
                *cur,
                *old(next),
                c,
                c_rival,
            ),
            Err(e) => !turn_possible(*cur, *old(next), c, c_rival) && e == GridError::OutOfBounds
                && final(next)@ == old(next)@,
        },
        cur.holds(c.0, c.1) && within_cap(cur.spec_at(c.0, c.1)) && all_within_cap(old(next)@)
            ==> all_within_cap(final(next)@),
{
    let el: Cell = *cur.at(c.0, c.1)?;
    let rival: Cell = *cur.at(c_rival.0, c_rival.1)?;
    let next_el: Cell = *next.at(c.0, c.1)?;
    let next_rival: Cell = *next.at(c_rival.0, c_rival.1)?;
    let out = resolve(el, rival, next_el, next_rival);
    next.put(c.0, c.1, out.0);
    next.put(c_rival.0, c_rival.1, out.1);
    Ok(())
}

/// The row-major offset of `(x, y)` leads back to `(x, y)`.
pub proof fn lemma_coord_of_offset(size_x: usize, x: usize, y: usize)
    requires
        x < size_x,
    ensures
        coord_of(size_x, offset_of(size_x as int, x as int, y as int)) == (x, y),
{
    lemma_fundamental_div_mod_converse(
        offset_of(size_x as int, x as int, y as int),
        size_x as int,
        y as int,
        x as int,
    );
}

/// An offset inside the grid belongs to a coordinate inside the grid, and
/// that coordinate leads back to the offset.
pub proof fn lemma_offset_of_coord(size: (usize, usize), i: int)
    requires
        0 <= i < size.0 * size.1,
    ensures
        coord_of(size.0, i).0 < size.0,
        coord_of(size.0, i).1 < size.1,
        offset_of(size.0 as int, coord_of(size.0, i).0 as int, coord_of(size.0, i).1 as int) == i,
{
    assert(size.0 > 0) by (nonlinear_arith)
        requires
            0 <= i < size.0 * size.1,
    ;
    lemma_fundamental_div_mod(i, size.0 as int);
    lemma_mod_bound(i, size.0 as int);
    lemma_div_pos_is_pos(i, size.0 as int);
    lemma_multiply_divide_lt(i, size.0 as int, size.1 as int);
}

/// One more turn: the generation after `picks.push(pick)` is the turn of the
/// next cell applied to the generation after `picks`.
pub proof fn lemma_generation_step(
    cur: Seq<Cell>,
    size_x: usize,
    picks: Seq<Option<Point>>,
    pick: Option<Point>,
)
    ensures
        generation_after(cur, size_x, picks.push(pick)) == act(
            cur,
            generation_after(cur, size_x, picks),
            size_x,
            picks.len() as int,
            pick,
        ),
{
    assert(picks.push(pick).drop_last() == picks);
}

/// A tick neither adds nor removes cells, and strengths that were within
/// `0..=COMBAT_CAP` before it are within `0..=COMBAT_CAP` after it.
pub proof fn lemma_generation_within_cap(
    cur: Seq<Cell>,
    size: (usize, usize),
    picks: Seq<Option<Point>>,
)
    requires
        cur.len() == size.0 * size.1,
        picks.len() <= cur.len(),
        picks_allowed(cur, size, picks),
        all_within_cap(cur),
    ensures
        generation_after(cur, size.0, picks).len() == cur.len(),
        all_within_cap(generation_after(cur, size.0, picks)),
    decreases picks.len(),
{
    if picks.len() > 0 {
        let before = picks.drop_last();
        lemma_generation_within_cap(cur, size, before);
        let prev = generation_after(cur, size.0, before);
        let i = picks.len() - 1;
        assert(pick_allowed(cur, size, i, picks[i]));
        match picks.last() {
            Some(p) => {
                lemma_offset_in_range(size.0 as int, size.1 as int, p.0 as int, p.1 as int);
            },
            None => {},
        }
    }
}

/// An empty cell stays as it is through a tick unless a coloured cell of
/// positive strength met it: the cell at offset `c` of the next generation
/// equals the one of the current generation.
pub proof fn lemma_empty_cell_passive(
    cur: Seq<Cell>,
    size: (usize, usize),
    picks: Seq<Option<Point>>,
    c: int,
)
    requires
        cur.len() == size.0 * size.1,
        picks.len() <= cur.len(),
        picks_allowed(cur, size, picks),
        0 <= c < cur.len(),
        cur[c].color == Color::White,
        forall|i: int|
            0 <= i < picks.len() && cur[i].color != Color::White && cur[i].strength > 0 ==> match (
            #[trigger] picks[i]) {
                Some(p) => offset_of(size.0 as int, p.0 as int, p.1 as int) != c,
                None => true,
            },
    ensures
        generation_after(cur, size.0, picks).len() == cur.len(),
        generation_after(cur, size.0, picks)[c] == cur[c],
    decreases picks.len(),
{
    if picks.len() > 0 {
        let before = picks.drop_last();
        assert forall|i: int|
            0 <= i < before.len() && cur[i].color != Color::White && cur[i].strength > 0 implies match (
        #[trigger] before[i]) {
            Some(p) => offset_of(size.0 as int, p.0 as int, p.1 as int) != c,
            None => true,
        } by {
            assert(before[i] == picks[i]);
        }
        lemma_empty_cell_passive(cur, size, before, c);
        let i = picks.len() - 1;
        assert(pick_allowed(cur, size, i, picks[i]));
        match picks.last() {
            Some(p) => {
                lemma_offset_in_range(size.0 as int, size.1 as int, p.0 as int, p.1 as int);
            },
            None => {},
        }
    }
}

/// An empty cell that no coloured cell of positive strength touches stays
/// as it is through a tick, whatever the other cells met.
pub proof fn lemma_empty_cell_among_quiet_neighbours(
    cur: Seq<Cell>,
    size: (usize, usize),
    picks: Seq<Option<Point>>,
    c: Point,
)
    requires
        cur.len() == size.0 * size.1,
        picks.len() <= cur.len(),
        picks_allowed(cur, size, picks),
        c.0 < size.0,
        c.1 < size.1,
        cur[offset_of(size.0 as int, c.0 as int, c.1 as int)].color == Color::White,
        quiet_around(cur, size, c),
    ensures
        generation_after(cur, size.0, picks)[offset_of(size.0 as int, c.0 as int, c.1 as int)]
            == cur[offset_of(size.0 as int, c.0 as int, c.1 as int)],
{
    let at = offset_of(size.0 as int, c.0 as int, c.1 as int);
    lemma_offset_in_range(size.0 as int, size.1 as int, c.0 as int, c.1 as int);
    lemma_coord_of_offset(size.0, c.0, c.1);
    assert forall|i: int|
        0 <= i < picks.len() && cur[i].color != Color::White && cur[i].strength > 0 implies match (
    #[trigger] picks[i]) {
        Some(p) => offset_of(size.0 as int, p.0 as int, p.1 as int) != at,
        None => true,
    } by {
        match picks[i] {
            Some(p) => {
                if offset_of(size.0 as int, p.0 as int, p.1 as int) == at {
                    let q = coord_of(size.0, i);
                    assert(pick_allowed(cur, size, i, picks[i]));
                    lemma_coord_of_offset(size.0, p.0, p.1);
                    assert(p == c);
                    lemma_offset_of_coord(size, i);
                    // The acting cell touches `c`, so it is not one with
                    // a colour and a positive strength.
                    assert(is_neighbour(c, q, size));
                }
            },
            None => {},
        }
    }
    lemma_empty_cell_passive(cur, size, picks, at);
}

} // verus!
