//! The rules of one meeting: which cells are neighbours, which colour beats
//! which, and what a meeting does to the two cells involved.

use vstd::prelude::*;
use crate::cell::{empty_cell, within_cap, Cell, Color, COMBAT_CAP};

verus! {

/// A coordinate `(x, y)`.
pub type Point = (usize, usize);

/// `p` is one of the (up to eight) cells that touch `c`, by a side or a
/// corner, inside a grid of dimensions `size`. The grid does not wrap.
pub open spec fn is_neighbour(c: Point, p: Point, size: (usize, usize)) -> bool {
    &&& p.0 < size.0
    &&& p.1 < size.1
    &&& p != c
    &&& c.0 - 1 <= p.0 <= c.0 + 1
    &&& c.1 - 1 <= p.1 <= c.1 + 1
}

/// Position of `p` among the nine cells around and including `c`, counted
/// row by row from the upper left. Only meaningful where `p` touches `c`.
pub open spec fn rank(c: Point, p: Point) -> int {
    (p.1 - c.1 + 1) * 3 + (p.0 - c.0 + 1)
}

/// The dominance cycle: Green beats Red, Blue beats Green, Red beats Blue.
pub open spec fn beats(a: Color, b: Color) -> bool {
    ||| a == Color::Green && b == Color::Red
    ||| a == Color::Blue && b == Color::Green
    ||| a == Color::Red && b == Color::Blue
}

/// A cell after it lost a fight: one strength less, or empty once its
/// strength was not above one.
pub open spec fn worn(c: Cell) -> Cell {
    if c.strength > 1 {
        Cell { strength: (c.strength - 1) as i32, color: c.color }
    } else {
        empty_cell()
    }
}

/// A cell after it won a fight: one strength more, unless it is at the cap.
pub open spec fn raised(c: Cell) -> Cell {
    if c.strength < COMBAT_CAP {
        Cell { strength: (c.strength + 1) as i32, color: c.color }
    } else {
        c
    }
}

/// The outcome of one meeting.
///
/// `el` is the acting cell and `rival` the neighbour it met, both as they
/// stand in the current generation; `next_el` and `next_rival` are the same
/// two slots in the generation under construction. The result is the new
/// content of those two slots, acting cell first.
pub open spec fn meet(el: Cell, rival: Cell, next_el: Cell, next_rival: Cell) -> (Cell, Cell) {
    if el.color == Color::White {
        (next_el, next_rival)
    } else if rival.color == Color::White {
        if el.strength > 0 {
            (next_el, Cell { strength: (el.strength - 1) as i32, color: el.color })
        } else {
            (next_el, next_rival)
        }
    } else if beats(el.color, rival.color) {
        (raised(next_el), worn(next_rival))
    } else {
        (next_el, next_rival)
    }
}

/// Whether `a` beats `b` in the dominance cycle.
pub fn dominates(a: Color, b: Color) -> (r: bool)
    ensures
        r == beats(a, b),
{
    match (a, b) {
        (Color::Green, Color::Red) => true,
        (Color::Blue, Color::Green) => true,
        (Color::Red, Color::Blue) => true,
        _ => false,
    }
}

/// Resolves one meeting; see [`meet`] for the roles of the four cells.
///
/// Strengths that were within `0..=COMBAT_CAP` stay there.
pub fn resolve(el: Cell, rival: Cell, next_el: Cell, next_rival: Cell) -> (r: (Cell, Cell))
    ensures
        r == meet(el, rival, next_el, next_rival),
        within_cap(el) && within_cap(next_el) && within_cap(next_rival) ==> within_cap(r.0)
            && within_cap(r.1),
{
    match el.color {
        Color::White => (next_el, next_rival),
        _ => match rival.color {
            Color::White => {
                if el.strength > 0 {
                    (next_el, Cell { strength: el.strength - 1, color: el.color })
                } else {
                    (next_el, next_rival)
                }
            },
            _ => {
                if dominates(el.color, rival.color) {
                    let loser = if next_rival.strength > 1 {
                        Cell { strength: next_rival.strength - 1, color: next_rival.color }
                    } else {
                        Cell::default()
                    };
                    let winner = if next_el.strength < COMBAT_CAP {
                        Cell { strength: next_el.strength + 1, color: next_el.color }
                    } else {
                        next_el
                    };
                    (winner, loser)
                } else {
                    (next_el, next_rival)
                }
            },
        },
    }
}

/// `v + d - 1` where that is a `usize`, for `d` in `0..=2`.
fn shifted(v: usize, d: usize) -> (r: Option<usize>)
    requires
        d <= 2,
    ensures
        match r {
            Some(w) => w == v + d - 1,
            None => v + d - 1 < 0 || v + d - 1 > usize::MAX,
        },
{
    if d == 0 {
        if v >= 1 {
            Some(v - 1)
        } else {
            None
        }
    } else if d == 1 {
        Some(v)
    } else if v < usize::MAX {
        Some(v + 1)
    } else {
        None
    }
}

/// The cells that touch `coord` inside a grid of dimensions `size`: each
/// exactly once, an edge or a corner having fewer than eight.
pub fn neighbours(coord: Point, size: (usize, usize)) -> (r: Vec<Point>)
    ensures
        forall|p: Point| r@.contains(p) <==> is_neighbour(coord, p, size),
        r@.no_duplicates(),
        r@.len() <= 8,
{
    let mut possible: Vec<Point> = Vec::with_capacity(8);
    let mut k: usize = 0;
    while k < 9
        invariant
            k <= 9,
            forall|p: Point|
                possible@.contains(p) <==> (is_neighbour(coord, p, size) && rank(coord, p) < k),
            possible@.no_duplicates(),
            possible@.len() <= k,
            k > 4 ==> possible@.len() < k,
        decreases 9 - k,
    {
        let dx: usize = k % 3;
        let dy: usize = k / 3;
        let ghost before = possible@;
        let mut added: Ghost<Option<Point>> = Ghost(None);
        if k != 4 {
            match (shifted(coord.0, dx), shifted(coord.1, dy)) {
                (Some(px), Some(py)) => {
                    if px < size.0 && py < size.1 {
                        possible.push((px, py));
                        proof {
                            added@ = Some((px, py));
                            assert(rank(coord, (px, py)) == k);
                            assert(!before.contains((px, py)));
                        }
                    }
                },
                _ => {},
            }
        }
        proof {
            assert forall|p: Point|
                possible@.contains(p) <==> (is_neighbour(coord, p, size) && rank(coord, p) < k
                    + 1) by {
                if is_neighbour(coord, p, size) && rank(coord, p) == k {
                    assert(p.0 == coord.0 + dx - 1);
                    assert(p.1 == coord.1 + dy - 1);
                    assert(added@ == Some(p));
                }
                match added@ {
                    Some(q) => {
                        assert(possible@ == before.push(q));
                        assert(possible@[before.len() as int] == q);
                        if before.contains(p) {
                            let i = choose|i: int| 0 <= i < before.len() && before[i] == p;
                            assert(possible@[i] == p);
                        }
                    },
                    None => {},
                }
            }
        }
        k += 1;
    }
    possible
}

} // verus!
