use chotto::generator::create_random_number_grids;
use chotto::grid::{assemble_grids, Grid, FREE_CELL};
use chotto::GenError;

fn sample_columns(count: usize) -> Vec<Vec<Vec<i32>>> {
    // column x, sheet i: the arrangement [100·x + 10·i, .., 100·x + 10·i + 4]
    (0..5)
        .map(|x| {
            (0..count)
                .map(|i| (0..5).map(|y| (100 * x + 10 * i + y) as i32).collect())
                .collect()
        })
        .collect()
}

#[test]
fn assembles_cells_column_wise_with_free_centre() {
    let grids = assemble_grids(&sample_columns(3)).unwrap();
    assert_eq!(grids.len(), 3);
    for (i, grid) in grids.iter().enumerate() {
        for x in 0..5 {
            for y in 0..5 {
                if x == 2 && y == 2 {
                    assert_eq!(grid.get(2, 2), FREE_CELL);
                } else {
                    assert_eq!(grid.get(x, y), (100 * x + 10 * i + y) as i32);
                }
            }
        }
    }
}

#[test]
fn unequal_column_lengths_are_a_mismatch() {
    let mut columns = sample_columns(2);
    columns[3].pop();
    assert_eq!(assemble_grids(&columns).unwrap_err(), GenError::LengthMismatch);
}

#[test]
fn zero_sheets_give_no_grids() {
    assert!(assemble_grids(&sample_columns(0)).unwrap().is_empty());
}

fn check_sheet(grid: &Grid) {
    assert_eq!(grid.get(2, 2), FREE_CELL);
    for x in 0..5usize {
        let low = 15 * x as i32 + 1;
        let high = 15 * x as i32 + 15;
        let mut seen: Vec<i32> = Vec::new();
        for y in 0..5usize {
            if x == 2 && y == 2 {
                continue;
            }
            let v = grid.get(x, y);
            assert!(low <= v && v <= high);
            assert!(!seen.contains(&v));
            seen.push(v);
        }
    }
}

#[test]
fn generated_sheets_use_the_five_pools() {
    let grids = create_random_number_grids(3, 424242);
    assert_eq!(grids.len(), 3);
    for grid in &grids {
        check_sheet(grid);
    }
}

#[test]
fn generation_is_reproducible_from_the_seed() {
    let first = create_random_number_grids(2, 7);
    let second = create_random_number_grids(2, 7);
    assert_eq!(first.len(), 2);
    for (a, b) in first.iter().zip(second.iter()) {
        for x in 0..5 {
            for y in 0..5 {
                assert_eq!(a.get(x, y), b.get(x, y));
            }
        }
    }
}
