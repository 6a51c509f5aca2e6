use qmbed::dynamics::{common_dimension, CycleGrid};
use qmbed::measure::distinct_names;
use qmbed::solve::{
    select_both_ends, select_indices, solved_densely, start_mantissas, EigshCounts,
};
use qmbed::tracking::best_assignment;
use qmbed::QmbedError;

#[test]
fn equal_keys_keep_their_order() {
    assert_eq!(select_indices(&[3, 1, 1, 2], false, 3), vec![1, 2, 3]);
    assert_eq!(select_indices(&[3, 1, 3, 2], true, 2), vec![0, 2]);
    assert_eq!(select_indices(&[3, 1], true, 9), vec![0, 1]);
}

#[test]
fn both_ends_take_the_extra_one_above() {
    assert_eq!(select_both_ends(&[5, 4, 3, 2, 1], 3), vec![4, 1, 0]);
}

#[test]
fn start_values_follow_the_recurrence() {
    let first = 1u64
        .wrapping_mul(6_364_136_223_846_793_005)
        .wrapping_add(1_442_695_040_888_963_407);
    let second = first
        .wrapping_mul(6_364_136_223_846_793_005)
        .wrapping_add(1_442_695_040_888_963_407);
    assert_eq!(start_mantissas(2, 0), vec![first >> 11, second >> 11]);
    assert_eq!(start_mantissas(3, 6), start_mantissas(3, 7));
}

#[test]
fn cycle_points_split_into_cycle_and_step() {
    let grid = CycleGrid::new(2, 3, true).unwrap();
    assert_eq!(grid.points(), 7);
    let point = grid.coordinate(4).unwrap();
    assert_eq!((point.cycle, point.step), (1, 1));
    assert_eq!(grid.coordinate(6).unwrap().cycle, 2);
    assert!(grid.coordinate(7).is_err());
    assert!(CycleGrid::new(0, 3, true).is_err());
    assert!(CycleGrid::new(usize::MAX, 2, true).is_err());
}

#[test]
fn floquet_time_vector_has_exact_cycle_coordinates() {
    let grid = CycleGrid::new(2, 4, true).unwrap();
    assert_eq!(grid.points(), 9);
    assert_eq!(grid.coordinate(5).unwrap().cycle, 1);
    assert_eq!(grid.coordinate(5).unwrap().step, 1);
    assert_eq!(grid.coordinate(8).unwrap().cycle, 2);
    assert!(matches!(
        grid.coordinate(9).unwrap_err(),
        QmbedError::InvalidOptions(_)
    ));
}

#[test]
fn drive_steps_share_one_dimension() {
    assert_eq!(common_dimension(&[(4, 4), (4, 4)]).unwrap(), 4);
    assert!(matches!(
        common_dimension(&[]).unwrap_err(),
        QmbedError::InvalidOptions(_)
    ));
    assert!(matches!(
        common_dimension(&[(4, 4), (4, 2)]).unwrap_err(),
        QmbedError::DimensionMismatch(_)
    ));
    assert!(matches!(
        common_dimension(&[(4, 3)]).unwrap_err(),
        QmbedError::DimensionMismatch(_)
    ));
}

#[test]
fn subspaces_exceed_the_eigenpairs() {
    let counts = EigshCounts {
        eigenpairs: 2,
        krylov_dimension: None,
        max_iterations: 1_000,
    };
    assert_eq!(counts.subspace_dimension(5_000).unwrap(), 48);
    assert_eq!(counts.subspace_dimension(20).unwrap(), 20);
    let many = EigshCounts {
        eigenpairs: 10,
        ..counts
    };
    assert_eq!(many.subspace_dimension(5_000).unwrap(), 64);
    let few = EigshCounts {
        max_iterations: 2,
        ..counts
    };
    assert!(few.subspace_dimension(5_000).is_err());
    assert!(counts.validate(3, true, true).is_ok());
    assert!(counts.validate(2, true, true).is_err());
    assert!(counts.validate(3, false, true).is_err());
    assert!(counts.validate(3, true, false).is_err());
    let tight = EigshCounts {
        krylov_dimension: Some(2),
        ..counts
    };
    assert!(tight.validate(9, true, true).is_err());
    assert!(solved_densely(128) && !solved_densely(129));
}

#[test]
fn observables_are_told_apart_by_their_names() {
    let names = |list: &[&str]| list.iter().map(|name| name.to_string()).collect::<Vec<_>>();
    assert!(distinct_names(&names(&["x", "y"])));
    assert!(distinct_names(&names(&[])));
    assert!(!distinct_names(&names(&["x", ""])));
    assert!(!distinct_names(&names(&["x", "y", "x"])));
}

#[test]
fn assignments_weigh_as_much_as_possible() {
    // The largest pair is given up for a larger sum.
    let weights = vec![vec![10, 9], vec![9, 1]];
    assert_eq!(best_assignment(&weights), vec![1, 0]);
    let cyclic = vec![vec![1, 5, 0], vec![0, 1, 5], vec![5, 0, 1]];
    assert_eq!(best_assignment(&cyclic), vec![1, 2, 0]);
    let weights: Vec<Vec<i64>> = (0..5)
        .map(|row: i64| (0..5).map(|column: i64| (7 * row * row + 3 * column * row + 5 * column) % 11).collect())
        .collect();
    let best = best_assignment(&weights);
    let weigh = |places: &[usize]| {
        places
            .iter()
            .enumerate()
            .map(|(row, &column)| weights[row][column])
            .sum::<i64>()
    };
    let mut orders: Vec<Vec<usize>> = vec![vec![]];
    for _ in 0..5 {
        let mut longer = Vec::new();
        for order in &orders {
            for column in 0..5 {
                if !order.contains(&column) {
                    let mut next = order.clone();
                    next.push(column);
                    longer.push(next);
                }
            }
        }
        orders = longer;
    }
    assert_eq!(orders.len(), 120);
    assert!(orders.contains(&best));
    assert!(orders.iter().all(|order| weigh(order) <= weigh(&best)));
    assert!(best_assignment(&vec![]).is_empty());
}
