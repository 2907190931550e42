//! End-to-end tests of the collapse runs: boundary behaviors, the concrete
//! scenarios, determinism under a fixed seed, and idempotent termination.

use rand::rngs::StdRng;
use rand::SeedableRng;
use wave_collapse::error::WaveCollapseError;
use wave_collapse::node::Node;
use wave_collapse::tile2d::{Cutoff, Kernel2D, Size2D, TileMap2D, Wrapping};
use wave_collapse::gen_iter_return_result::GenIterReturnResult;
use wave_collapse::{collapse_wave, WaveShape, WaveSolver};

/// Accepts every value.
struct AlwaysTrue;

impl WaveSolver<u32, Kernel2D<Cutoff, u32>> for AlwaysTrue {
    fn valid_spec(&self, value: u32, kernel: Kernel2D<Cutoff, u32>) -> bool {
        self.is_valid(&value, &kernel)
    }

    fn is_valid(&self, _value: &u32, _kernel: &Kernel2D<Cutoff, u32>) -> bool {
        true
    }
}

/// Rejects every value.
struct AlwaysFalse;

impl WaveSolver<u32, Kernel2D<Cutoff, u32>> for AlwaysFalse {
    fn valid_spec(&self, value: u32, kernel: Kernel2D<Cutoff, u32>) -> bool {
        self.is_valid(&value, &kernel)
    }

    fn is_valid(&self, _value: &u32, _kernel: &Kernel2D<Cutoff, u32>) -> bool {
        false
    }
}

/// A value is possible only while no neighbor is forced to the same value.
struct NeighborDiffers;

impl WaveSolver<u32, Kernel2D<Cutoff, u32>> for NeighborDiffers {
    fn valid_spec(&self, value: u32, kernel: Kernel2D<Cutoff, u32>) -> bool {
        self.is_valid(&value, &kernel)
    }

    fn is_valid(&self, value: &u32, kernel: &Kernel2D<Cutoff, u32>) -> bool {
        for dy in -kernel.radius_y..=kernel.radius_y {
            for dx in -kernel.radius_x..=kernel.radius_x {
                if dx == 0 && dy == 0 {
                    continue;
                }
                if let Some(neighbor) = kernel.get(dx, dy) {
                    // a neighbor with no candidate other than `value`
                    // forbids `value` here
                    if neighbor.possible_values().iter().all(|c| c == value) {
                        return false;
                    }
                }
            }
        }
        true
    }
}

/// A value is possible only while every neighbor can still equal it.
struct AllNeighborsEqual;

impl WaveSolver<u32, Kernel2D<Cutoff, u32>> for AllNeighborsEqual {
    fn valid_spec(&self, value: u32, kernel: Kernel2D<Cutoff, u32>) -> bool {
        self.is_valid(&value, &kernel)
    }

    fn is_valid(&self, value: &u32, kernel: &Kernel2D<Cutoff, u32>) -> bool {
        for dy in -kernel.radius_y..=kernel.radius_y {
            for dx in -kernel.radius_x..=kernel.radius_x {
                if dx == 0 && dy == 0 {
                    continue;
                }
                if let Some(neighbor) = kernel.get(dx, dy) {
                    if !neighbor.possible_values().iter().any(|c| c == value) {
                        return false;
                    }
                }
            }
        }
        true
    }
}

/// A value is possible only while some neighbor can still equal it.
struct SomeNeighborEqual;

impl WaveSolver<u32, Kernel2D<Wrapping, u32>> for SomeNeighborEqual {
    fn valid_spec(&self, value: u32, kernel: Kernel2D<Wrapping, u32>) -> bool {
        self.is_valid(&value, &kernel)
    }

    fn is_valid(&self, value: &u32, kernel: &Kernel2D<Wrapping, u32>) -> bool {
        for dy in -kernel.radius_y..=kernel.radius_y {
            for dx in -kernel.radius_x..=kernel.radius_x {
                if dx == 0 && dy == 0 {
                    continue;
                }
                if let Some(neighbor) = kernel.get(dx, dy) {
                    if neighbor.possible_values().iter().any(|c| c == value) {
                        return true;
                    }
                }
            }
        }
        false
    }
}

type Cells = Vec<((u32, u32), Vec<u32>, bool)>;

fn cells(map: &TileMap2D<u32>) -> Cells {
    map.iter_node_ids()
        .into_iter()
        .map(|id| {
            let node: &Node<u32> = map.get_node(&id).unwrap();
            (id, node.possible_values().clone(), node.is_collapsed())
        })
        .collect()
}

fn collapsed_row(map: &TileMap2D<u32>) -> Vec<u32> {
    map.iter_node_ids()
        .into_iter()
        .map(|id| map.get_node(&id).unwrap().collapsed().unwrap())
        .collect()
}

#[test]
fn empty_grid_reports_empty_input() {
    let map: TileMap2D<u32> = TileMap2D::new(Size2D::new(0, 0), Size2D::square(1), &vec![1]);
    let mut run = collapse_wave(map, AlwaysTrue, StdRng::seed_from_u64(0));
    assert!(!run.next());
    match run.calc_result() {
        Err(WaveCollapseError::EmptyInput) => {}
        other => panic!("expected EmptyInput, got {:?}", other.map(|_| ())),
    }
}

#[test]
fn single_cell_collapses_in_one_iteration() {
    let map: TileMap2D<u32> = TileMap2D::new(Size2D::new(1, 1), Size2D::square(1), &vec![7]);
    let mut run = collapse_wave(map, AlwaysTrue, StdRng::seed_from_u64(1));
    let mut iterations = 0;
    while run.next() {
        iterations += 1;
    }
    assert_eq!(iterations, 1);
    let shape = run.calc_result().expect("a single free cell collapses");
    assert_eq!(shape.get_node(&(0, 0)).unwrap().collapsed(), Some(7));
}

#[test]
fn single_cell_choice_is_spread_over_candidates() {
    let mut seen = [false, false];
    for seed in 0..64 {
        let map: TileMap2D<u32> =
            TileMap2D::new(Size2D::new(1, 1), Size2D::square(1), &vec![1, 2]);
        let run = collapse_wave(map, AlwaysTrue, StdRng::seed_from_u64(seed));
        let shape = run.calc_result().unwrap();
        let v = shape.get_node(&(0, 0)).unwrap().collapsed().unwrap();
        seen[(v - 1) as usize] = true;
    }
    assert!(seen[0] && seen[1], "both candidates should be chosen across seeds");
}

#[test]
fn already_collapsed_grid_succeeds_without_iterations() {
    let map: TileMap2D<u32> = TileMap2D::new(Size2D::new(2, 2), Size2D::square(1), &vec![3]);
    let first = collapse_wave(map, AlwaysTrue, StdRng::seed_from_u64(2));
    let done = first.calc_result().unwrap();
    // run again on the fully collapsed shape
    let mut second = collapse_wave(done, AlwaysTrue, StdRng::seed_from_u64(3));
    assert!(!second.next());
    let shape = second.calc_result().unwrap();
    assert_eq!(collapsed_row(&shape), vec![3, 3, 3, 3]);
}

#[test]
fn always_false_predicate_fails_quickly() {
    let map: TileMap2D<u32> = TileMap2D::new(Size2D::new(2, 2), Size2D::square(3), &vec![1, 2]);
    let mut run = collapse_wave(map, AlwaysFalse, StdRng::seed_from_u64(4));
    let mut iterations = 0;
    while run.next() {
        iterations += 1;
    }
    assert!(iterations <= 1, "must fail within one propagation pass");
    match run.calc_result() {
        Err(WaveCollapseError::InvalidSuperposition) => {}
        other => panic!("expected InvalidSuperposition, got {:?}", other.map(|_| ())),
    }
}

#[test]
fn always_true_predicate_takes_one_iteration_per_cell() {
    let map: TileMap2D<u32> = TileMap2D::new(Size2D::new(3, 3), Size2D::square(3), &vec![1, 2]);
    let mut run = collapse_wave(map, AlwaysTrue, StdRng::seed_from_u64(5));
    let mut iterations = 0;
    while run.next() {
        iterations += 1;
    }
    assert_eq!(iterations, 9);
    assert!(run.calc_result().is_ok());
}

#[test]
fn uniform_grid_collapses_everywhere() {
    let map: TileMap2D<u32> = TileMap2D::new(Size2D::new(3, 3), Size2D::square(3), &vec![5]);
    let mut run = collapse_wave(map, AlwaysTrue, StdRng::seed_from_u64(6));
    let mut iterations = 0;
    while run.next() {
        iterations += 1;
    }
    assert_eq!(iterations, 9);
    let shape = run.calc_result().unwrap();
    assert_eq!(collapsed_row(&shape), vec![5; 9]);
    let grid = shape.get_collapsed().expect("every cell is collapsed");
    assert_eq!(grid.num_rows(), 3);
    assert_eq!(grid.num_columns(), 3);
    for row in 0..3 {
        for col in 0..3 {
            assert_eq!(grid.get(row, col), Some(&5));
        }
    }
}

#[test]
fn two_cells_alternate_under_difference_constraint() {
    let mut seen_ab = false;
    let mut seen_ba = false;
    for seed in 0..64 {
        let map: TileMap2D<u32> =
            TileMap2D::new(Size2D::new(2, 1), Size2D::new(3, 1), &vec![1, 2]);
        let run = collapse_wave(map, NeighborDiffers, StdRng::seed_from_u64(seed));
        let shape = run.calc_result().expect("a two-coloring exists");
        let row = collapsed_row(&shape);
        if row == vec![1, 2] {
            seen_ab = true;
        } else if row == vec![2, 1] {
            seen_ba = true;
        } else {
            panic!("unexpected terminal state {:?}", row);
        }
    }
    assert!(seen_ab && seen_ba, "both colorings should occur across seeds");
}

#[test]
fn equality_constraint_spreads_the_first_choice() {
    for seed in 0..256 {
        let map: TileMap2D<u32> =
            TileMap2D::new(Size2D::new(2, 2), Size2D::square(3), &vec![1, 2]);
        let mut run = collapse_wave(map, AllNeighborsEqual, StdRng::seed_from_u64(seed));
        assert!(run.next());
        let (first_cell, first_value) = {
            let shape = run.shape();
            let id = shape.get_last_collapsed_id().expect("one cell collapsed");
            let value = shape.get_node(&id).unwrap().collapsed().unwrap();
            (id, value)
        };
        if first_cell != (0, 0) || first_value != 1 {
            continue;
        }
        // the seed collapses (0, 0) to 1 first: the whole grid follows it
        let shape = run.calc_result().expect("the uniform grid satisfies the constraint");
        assert_eq!(collapsed_row(&shape), vec![1, 1, 1, 1]);
        return;
    }
    panic!("no seed collapsed the first cell to 1 at (0, 0)");
}

#[test]
fn difference_constraint_without_alternatives_fails() {
    let map: TileMap2D<u32> = TileMap2D::new(Size2D::new(2, 1), Size2D::new(3, 1), &vec![1]);
    let run = collapse_wave(map, NeighborDiffers, StdRng::seed_from_u64(8));
    match run.calc_result() {
        Err(WaveCollapseError::InvalidSuperposition) => {}
        other => panic!("expected InvalidSuperposition, got {:?}", other.map(|_| ())),
    }
}

#[test]
fn wrapping_run_leaves_every_cell_a_matching_neighbor() {
    let map: TileMap2D<u32> = TileMap2D::new(Size2D::new(4, 4), Size2D::square(3), &vec![1, 2]);
    let run = collapse_wave(map, SomeNeighborEqual, StdRng::seed_from_u64(9));
    let shape = run.calc_result().expect("a toroidal matching assignment exists");
    let value = |x: i64, y: i64| -> u32 {
        let id = ((x.rem_euclid(4)) as u32, (y.rem_euclid(4)) as u32);
        shape.get_node(&id).unwrap().collapsed().unwrap()
    };
    for x in 0..4i64 {
        for y in 0..4i64 {
            let v = value(x, y);
            let mut found = false;
            for dx in -1..=1i64 {
                for dy in -1..=1i64 {
                    if dx == 0 && dy == 0 {
                        continue;
                    }
                    if value(x + dx, y + dy) == v {
                        found = true;
                    }
                }
            }
            assert!(found, "cell ({x}, {y}) has no equal neighbor on the torus");
        }
    }
}

#[test]
fn collapsed_grid_is_indexed_like_the_cells() {
    // a non-square grid with distinct cell values pins the orientation:
    // row x, column y of the returned grid is cell (x, y)
    let map: TileMap2D<u32> = TileMap2D::new(Size2D::new(2, 1), Size2D::new(3, 1), &vec![1, 2]);
    let run = collapse_wave(map, NeighborDiffers, StdRng::seed_from_u64(14));
    let shape = run.calc_result().expect("a two-coloring exists");
    let grid = shape.get_collapsed().expect("every cell is collapsed");
    assert_eq!(grid.num_rows(), 2);
    assert_eq!(grid.num_columns(), 1);
    for x in 0..2u32 {
        let expected = shape.get_node(&(x, 0)).unwrap().collapsed().unwrap();
        assert_eq!(grid.get(x as usize, 0), Some(&expected));
    }
    let tall: TileMap2D<u32> = TileMap2D::new(Size2D::new(3, 2), Size2D::square(1), &vec![9]);
    let done = collapse_wave(tall, AlwaysTrue, StdRng::seed_from_u64(15))
        .calc_result()
        .unwrap();
    let grid = done.get_collapsed().unwrap();
    assert_eq!(grid.num_rows(), 3);
    assert_eq!(grid.num_columns(), 2);
    assert_eq!(grid.get(2, 1), Some(&9));
    assert_eq!(grid.get(3, 0), None);
}

#[test]
fn fixed_seed_runs_are_reproducible() {
    let run_once = |seed: u64| -> (Vec<Cells>, Result<Vec<u32>, WaveCollapseError>) {
        let map: TileMap2D<u32> =
            TileMap2D::new(Size2D::new(3, 3), Size2D::square(3), &vec![1, 2]);
        let mut run = collapse_wave(map, NeighborDiffers, StdRng::seed_from_u64(seed));
        let mut snapshots = Vec::new();
        while run.next() {
            snapshots.push(cells(run.shape()));
        }
        let result = run.calc_result().map(|shape| collapsed_row(&shape));
        (snapshots, result)
    };
    let (snaps_a, result_a) = run_once(10);
    let (snaps_b, result_b) = run_once(10);
    assert_eq!(snaps_a, snaps_b);
    assert_eq!(format!("{result_a:?}"), format!("{result_b:?}"));
}

#[test]
fn finalize_ignores_how_many_snapshots_were_taken() {
    let build = || -> TileMap2D<u32> {
        TileMap2D::new(Size2D::new(3, 3), Size2D::square(3), &vec![1, 2])
    };
    let direct = collapse_wave(build(), NeighborDiffers, StdRng::seed_from_u64(11))
        .calc_result()
        .map(|shape| collapsed_row(&shape));
    let mut stepped_run = collapse_wave(build(), NeighborDiffers, StdRng::seed_from_u64(11));
    stepped_run.next();
    stepped_run.next();
    let stepped = stepped_run.calc_result().map(|shape| collapsed_row(&shape));
    assert_eq!(format!("{direct:?}"), format!("{stepped:?}"));
}

#[test]
fn termination_is_idempotent() {
    let map: TileMap2D<u32> = TileMap2D::new(Size2D::new(2, 2), Size2D::square(3), &vec![1, 2]);
    let mut run = collapse_wave(map, AlwaysTrue, StdRng::seed_from_u64(12));
    while run.next() {}
    let settled = cells(run.shape());
    for _ in 0..3 {
        assert!(!run.next());
        assert_eq!(cells(run.shape()), settled);
    }
    assert!(run.calc_result().is_ok());
}

#[test]
fn candidate_lists_shrink_and_collapsed_cells_freeze() {
    let map: TileMap2D<u32> = TileMap2D::new(Size2D::new(3, 3), Size2D::square(3), &vec![1, 2]);
    let mut run = collapse_wave(map, NeighborDiffers, StdRng::seed_from_u64(13));
    let mut previous = cells(run.shape());
    while run.next() {
        let current = cells(run.shape());
        for (before, after) in previous.iter().zip(current.iter()) {
            assert_eq!(before.0, after.0);
            // entropy never grows
            assert!(after.1.len() <= before.1.len());
            // a collapsed cell is never mutated again
            if before.2 {
                assert_eq!(before, after);
            }
            // a cell offers at least one value or is overspecified
            assert!(after.1.len() >= 1 || after.1.is_empty());
        }
        previous = current;
    }
}
