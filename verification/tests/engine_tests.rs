use game_of_life::{live_neighbours, next_generation, parse_goln, step, EdgeCaseMethod};

fn grid_of(goln: &str) -> grid::Grid<bool> {
    parse_goln(goln).expect("test pattern must parse")
}

fn assert_same_cells(a: &grid::Grid<bool>, b: &grid::Grid<bool>) {
    assert_eq!(a.rows(), b.rows());
    assert_eq!(a.cols(), b.cols());
    for y in 0..a.rows() {
        for x in 0..a.cols() {
            assert_eq!(a[(y, x)], b[(y, x)], "cells differ at ({}, {})", x, y);
        }
    }
}

#[test]
fn glider_moves_by_one_diagonal_after_four_steps() {
    let mut g = grid_of("6x6\n1,0\n2,1\n0,2\n1,2\n2,2");
    for _ in 0..4 {
        let changed = step(&mut g, &EdgeCaseMethod::AssumeDead);
        assert!(changed);
    }
    let expected = grid_of("6x6\n2,1\n3,2\n1,3\n2,3\n3,3");
    assert_same_cells(&g, &expected);
}

#[test]
fn block_is_fixed_point_assume_dead() {
    let mut g = grid_of("4x4\n0,0\n1,0\n0,1\n1,1");
    let before = grid_of("4x4\n0,0\n1,0\n0,1\n1,1");
    let changed = step(&mut g, &EdgeCaseMethod::AssumeDead);
    assert!(!changed);
    assert_same_cells(&g, &before);
}

#[test]
fn block_is_fixed_point_toroidal() {
    let mut g = grid_of("4x4\n0,0\n1,0\n0,1\n1,1");
    let before = grid_of("4x4\n0,0\n1,0\n0,1\n1,1");
    let changed = step(&mut g, &EdgeCaseMethod::Toroidal);
    assert!(!changed);
    assert_same_cells(&g, &before);
}

#[test]
fn toroidal_wrap_contributes_to_corner_neighbour_count() {
    let cells = vec![
        vec![true, false, false],
        vec![false, false, false],
        vec![false, false, false],
    ];
    let n = live_neighbours(&cells, &EdgeCaseMethod::Toroidal, 2, 2);
    assert_eq!(n, 1);
    let n_dead = live_neighbours(&cells, &EdgeCaseMethod::AssumeDead, 2, 2);
    assert_eq!(n_dead, 0);
}

#[test]
fn step_is_deterministic_on_equal_inputs() {
    let mut a = grid_of("5x5\n1,0\n2,1\n0,2\n1,2\n2,2");
    let mut b = grid_of("5x5\n1,0\n2,1\n0,2\n1,2\n2,2");
    let ca = step(&mut a, &EdgeCaseMethod::Toroidal);
    let cb = step(&mut b, &EdgeCaseMethod::Toroidal);
    assert_eq!(ca, cb);
    assert_same_cells(&a, &b);
}

#[test]
fn blinker_oscillates() {
    let cells = vec![
        vec![false, false, false],
        vec![true, true, true],
        vec![false, false, false],
    ];
    let next = next_generation(&cells, &EdgeCaseMethod::AssumeDead);
    let expected = vec![
        vec![false, true, false],
        vec![false, true, false],
        vec![false, true, false],
    ];
    assert_eq!(next, expected);
}

#[test]
fn step_reports_change_for_blinker() {
    let mut g = grid_of("5x5\n1,2\n2,2\n3,2");
    let changed = step(&mut g, &EdgeCaseMethod::AssumeDead);
    assert!(changed);
    assert!(g[(1, 2)]);
    assert!(g[(2, 2)]);
    assert!(g[(3, 2)]);
    assert!(!g[(2, 1)]);
    assert!(!g[(2, 3)]);
}

#[test]
fn all_dead_grid_stays_dead_without_change() {
    let mut g = grid_of("3x3");
    let changed = step(&mut g, &EdgeCaseMethod::Toroidal);
    assert!(!changed);
    for y in 0..3 {
        for x in 0..3 {
            assert!(!g[(y, x)]);
        }
    }
}
