use rps_automata::array::Array2D;
use rps_automata::cell::{Cell, Color};
use rps_automata::error::GridError;

#[test]
fn new_reserves_without_filling() {
    let grid: Array2D<u32> = Array2D::new(3, 2);
    assert_eq!(grid.dim(), (3, 2));
    assert_eq!(grid.at(0, 0), Err(GridError::OutOfBounds));
    assert_eq!(grid.at(2, 1), Err(GridError::OutOfBounds));
}

#[test]
fn empty_fills_every_slot_with_the_default() {
    let grid: Array2D<u32> = Array2D::empty(3, 2);
    assert_eq!(grid.dim(), (3, 2));
    for y in 0..2 {
        for x in 0..3 {
            assert_eq!(grid.at(x, y), Ok(&0));
        }
    }
}

#[test]
fn empty_grid_of_cells_is_white_with_strength_zero() {
    let grid: Array2D<Cell> = Array2D::empty(2, 2);
    let cell = *grid.at(1, 1).unwrap();
    assert_eq!(cell, Cell { strength: 0, color: Color::White });
    assert_eq!(Cell::default(), Cell { strength: 0, color: Color::White });
}

#[test]
fn zero_sided_grid_holds_nothing() {
    let grid: Array2D<u8> = Array2D::empty(0, 5);
    assert_eq!(grid.dim(), (0, 5));
    assert_eq!(grid.at(0, 0), Err(GridError::OutOfBounds));
}

#[test]
fn at_rejects_coordinates_outside_the_grid() {
    let grid: Array2D<u8> = Array2D::empty(3, 2);
    assert_eq!(grid.at(3, 0), Err(GridError::OutOfBounds));
    assert_eq!(grid.at(0, 2), Err(GridError::OutOfBounds));
    assert_eq!(grid.at(usize::MAX, usize::MAX), Err(GridError::OutOfBounds));
    assert!(grid.at(2, 1).is_ok());
}

#[test]
fn at_mut_rejects_coordinates_outside_the_grid() {
    let mut grid: Array2D<u8> = Array2D::empty(3, 2);
    assert_eq!(grid.at_mut(3, 1).err(), Some(GridError::OutOfBounds));
    assert_eq!(grid.at_mut(1, 2).err(), Some(GridError::OutOfBounds));
    assert!(grid.at_mut(0, 0).is_ok());
}

#[test]
fn at_mut_writes_one_slot_only() {
    let mut grid: Array2D<u32> = Array2D::empty(3, 2);
    *grid.at_mut(1, 1).unwrap() = 7;
    for y in 0..2 {
        for x in 0..3 {
            let expected = if (x, y) == (1, 1) { 7 } else { 0 };
            assert_eq!(grid.at(x, y), Ok(&expected));
        }
    }
}

#[test]
fn every_coordinate_has_a_slot_of_its_own() {
    let mut grid: Array2D<usize> = Array2D::empty(4, 3);
    for y in 0..3 {
        for x in 0..4 {
            *grid.at_mut(x, y).unwrap() = 4 * y + x;
        }
    }
    for y in 0..3 {
        for x in 0..4 {
            assert_eq!(grid.at(x, y), Ok(&(4 * y + x)));
        }
    }
}

#[test]
fn clone_keeps_dimensions_and_slots() {
    let mut grid: Array2D<u32> = Array2D::empty(2, 3);
    *grid.at_mut(1, 2).unwrap() = 9;
    let copy = grid.clone();
    *grid.at_mut(1, 2).unwrap() = 1;
    assert_eq!(copy.dim(), (2, 3));
    assert_eq!(copy.at(1, 2), Ok(&9));
    assert_eq!(copy.at(0, 0), Ok(&0));
    assert_eq!(grid.at(1, 2), Ok(&1));
}

#[test]
fn paint_cap_is_below_combat_cap() {
    assert_eq!(Cell::max_strength, 4);
    assert_eq!(rps_automata::cell::COMBAT_CAP, 10);
}
