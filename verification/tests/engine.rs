use rand::rngs::StdRng;
use rand::SeedableRng;
use rps_automata::automata::RpsAutomata;
use rps_automata::cell::{Cell, Color};
use rps_automata::error::GridError;

fn cell(color: Color, strength: i32) -> Cell {
    Cell { strength, color }
}

fn engine(size_x: usize, size_y: usize, seed: u64) -> RpsAutomata {
    RpsAutomata::new(size_x, size_y, StdRng::seed_from_u64(seed)).unwrap()
}

fn row_of_two(left: Cell, right: Cell) -> RpsAutomata {
    let mut automaton = engine(2, 1, 1);
    automaton.set_cell(0, 0, left).unwrap();
    automaton.set_cell(1, 0, right).unwrap();
    automaton
}

fn cells(automaton: &RpsAutomata) -> Vec<Cell> {
    let (size_x, size_y) = automaton.dimensions();
    let mut all = Vec::new();
    for y in 0..size_y {
        for x in 0..size_x {
            all.push(automaton.read_cell(x, y).unwrap());
        }
    }
    all
}

fn scatter(automaton: &mut RpsAutomata) {
    let (size_x, size_y) = automaton.dimensions();
    let colors = [Color::Red, Color::Green, Color::Blue];
    for y in 0..size_y {
        for x in 0..size_x {
            if (x + 2 * y) % 3 != 1 {
                automaton.paint_cell(x, y, colors[(x * 7 + y * 5) % 3]).unwrap();
            }
        }
    }
}

#[test]
fn new_engine_is_empty() {
    let automaton = engine(4, 3, 0);
    assert_eq!(automaton.dimensions(), (4, 3));
    assert_eq!(cells(&automaton), vec![Cell::default(); 12]);
}

#[test]
fn zero_side_is_refused() {
    assert_eq!(
        RpsAutomata::new(0, 3, StdRng::seed_from_u64(0)).err(),
        Some(GridError::InvalidDimensions)
    );
    assert_eq!(
        RpsAutomata::new(3, 0, StdRng::seed_from_u64(0)).err(),
        Some(GridError::InvalidDimensions)
    );
    assert_eq!(
        RpsAutomata::new(0, 0, StdRng::seed_from_u64(0)).err(),
        Some(GridError::InvalidDimensions)
    );
}

#[test]
fn dimensions_survive_steps() {
    let mut automaton = engine(5, 7, 3);
    scatter(&mut automaton);
    for _ in 0..20 {
        automaton.update();
        assert_eq!(automaton.dimensions(), (5, 7));
    }
}

#[test]
fn strengths_stay_within_the_cap() {
    let mut automaton = engine(9, 8, 11);
    scatter(&mut automaton);
    for _ in 0..60 {
        automaton.update();
        for c in cells(&automaton) {
            assert!(0 <= c.strength && c.strength <= 10);
        }
    }
}

#[test]
fn painted_cell_has_paint_strength() {
    let mut automaton = engine(3, 3, 0);
    assert_eq!(automaton.paint_cell(2, 1, Color::Green), Ok(()));
    assert_eq!(automaton.read_cell(2, 1), Ok(cell(Color::Green, 4)));
    for (x, y) in [(0, 0), (1, 0), (2, 0), (0, 1), (1, 1), (0, 2), (1, 2), (2, 2)] {
        assert_eq!(automaton.read_cell(x, y), Ok(Cell::default()));
    }
}

#[test]
fn empty_grid_stays_empty() {
    let mut automaton = engine(6, 4, 5);
    for _ in 0..5 {
        automaton.update();
    }
    assert_eq!(cells(&automaton), vec![Cell::default(); 24]);
}

#[test]
fn empty_cell_next_to_strengthless_cells_is_unchanged() {
    let mut automaton = engine(3, 3, 9);
    for (x, y) in [(0, 0), (1, 0), (2, 0), (0, 1), (2, 1), (0, 2), (1, 2), (2, 2)] {
        automaton.set_cell(x, y, cell(Color::Red, 0)).unwrap();
    }
    let before = cells(&automaton);
    automaton.update();
    assert_eq!(automaton.read_cell(1, 1), Ok(Cell::default()));
    assert_eq!(cells(&automaton), before);
}

#[test]
fn dominance_eliminates_weak_defender() {
    let mut automaton = row_of_two(cell(Color::Blue, 3), cell(Color::Green, 1));
    automaton.update();
    assert_eq!(automaton.read_cell(1, 0), Ok(Cell::default()));
    assert_eq!(automaton.read_cell(0, 0), Ok(cell(Color::Blue, 4)));
}

#[test]
fn colonization_spreads_at_reduced_strength() {
    let mut automaton = row_of_two(cell(Color::Red, 2), cell(Color::White, 0));
    automaton.update();
    assert_eq!(automaton.read_cell(1, 0), Ok(cell(Color::Red, 1)));
    assert_eq!(automaton.read_cell(0, 0), Ok(cell(Color::Red, 2)));
}

#[test]
fn defender_at_strength_one_resets_to_empty() {
    let mut automaton = row_of_two(cell(Color::Blue, 1), cell(Color::Green, 1));
    automaton.update();
    assert_eq!(automaton.read_cell(1, 0), Ok(Cell::default()));
    assert_eq!(automaton.read_cell(0, 0), Ok(cell(Color::Blue, 2)));
}

#[test]
fn defender_above_strength_one_loses_one() {
    let mut automaton = row_of_two(cell(Color::Blue, 1), cell(Color::Green, 5));
    automaton.update();
    assert_eq!(automaton.read_cell(1, 0), Ok(cell(Color::Green, 4)));
    assert_eq!(automaton.read_cell(0, 0), Ok(cell(Color::Blue, 2)));
}

#[test]
fn both_cells_act_on_the_old_generation() {
    let mut automaton = row_of_two(cell(Color::Red, 2), cell(Color::Blue, 1));
    automaton.update();
    assert_eq!(automaton.read_cell(0, 0), Ok(cell(Color::Red, 3)));
    assert_eq!(automaton.read_cell(1, 0), Ok(Cell::default()));
    let mut pair = row_of_two(cell(Color::Red, 3), cell(Color::Red, 1));
    pair.update();
    assert_eq!(cells(&pair), vec![cell(Color::Red, 3), cell(Color::Red, 1)]);
}

#[test]
fn column_of_two_forces_the_neighbour_too() {
    let mut automaton = engine(1, 2, 4);
    automaton.set_cell(0, 0, cell(Color::White, 0)).unwrap();
    automaton.set_cell(0, 1, cell(Color::Green, 3)).unwrap();
    automaton.update();
    assert_eq!(cells(&automaton), vec![cell(Color::Green, 2), cell(Color::Green, 3)]);
}

#[test]
fn lone_cell_has_nobody_to_meet() {
    let mut automaton = engine(1, 1, 2);
    automaton.paint_cell(0, 0, Color::Red).unwrap();
    automaton.update();
    assert_eq!(automaton.read_cell(0, 0), Ok(cell(Color::Red, 4)));
}

#[test]
fn painted_cell_spreads_to_one_neighbour() {
    let mut automaton = engine(3, 3, 17);
    automaton.paint_cell(1, 1, Color::Blue).unwrap();
    automaton.update();
    let after = cells(&automaton);
    assert_eq!(after[4], cell(Color::Blue, 4));
    let spread = after.iter().filter(|c| **c == cell(Color::Blue, 3)).count();
    let untouched = after.iter().filter(|c| **c == Cell::default()).count();
    assert_eq!(spread, 1);
    assert_eq!(untouched, 7);
}

#[test]
fn same_seed_gives_same_generations() {
    let mut first = engine(8, 8, 42);
    let mut second = engine(8, 8, 42);
    scatter(&mut first);
    scatter(&mut second);
    for _ in 0..15 {
        first.update();
        second.update();
        assert_eq!(cells(&first), cells(&second));
    }
}

#[test]
fn read_outside_the_grid_is_refused() {
    let automaton = engine(4, 3, 0);
    assert_eq!(automaton.read_cell(4, 0), Err(GridError::OutOfBounds));
    assert_eq!(automaton.read_cell(0, 3), Err(GridError::OutOfBounds));
    assert_eq!(automaton.read_cell(usize::MAX, usize::MAX), Err(GridError::OutOfBounds));
    assert!(automaton.read_cell(3, 2).is_ok());
}

#[test]
fn paint_outside_the_grid_is_refused() {
    let mut automaton = engine(4, 3, 0);
    assert_eq!(automaton.paint_cell(4, 1, Color::Red), Err(GridError::OutOfBounds));
    assert_eq!(automaton.paint_cell(1, 3, Color::Red), Err(GridError::OutOfBounds));
    assert_eq!(cells(&automaton), vec![Cell::default(); 12]);
}

#[test]
fn set_cell_checks_place_then_strength() {
    let mut automaton = engine(2, 2, 0);
    assert_eq!(
        automaton.set_cell(0, 0, cell(Color::Red, 11)),
        Err(GridError::InvalidStrength)
    );
    assert_eq!(
        automaton.set_cell(0, 0, cell(Color::Red, -1)),
        Err(GridError::InvalidStrength)
    );
    assert_eq!(
        automaton.set_cell(2, 0, cell(Color::Red, 11)),
        Err(GridError::OutOfBounds)
    );
    assert_eq!(cells(&automaton), vec![Cell::default(); 4]);
    assert_eq!(automaton.set_cell(1, 1, cell(Color::Red, 10)), Ok(()));
    assert_eq!(automaton.read_cell(1, 1), Ok(cell(Color::Red, 10)));
}
