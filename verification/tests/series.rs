use hpo_insight::record::Direction;
use hpo_insight::series::{extend_to, observe};

fn run(direction: Direction, trials: &[(usize, i64)]) -> Vec<Option<i64>> {
    let mut series = vec![None];
    for (step, value) in trials {
        observe(&mut series, *step, *value, direction);
    }
    series
}

fn never_gets_worse(series: &[Option<i64>], direction: Direction) -> bool {
    for i in 0..series.len() {
        for j in i..series.len() {
            if let Some(a) = series[i] {
                match series[j] {
                    Some(b) => {
                        let fine = match direction {
                            Direction::Minimize => b <= a,
                            Direction::Maximize => b >= a,
                        };
                        if !fine {
                            return false;
                        }
                    }
                    None => return false,
                }
            }
        }
    }
    true
}

#[test]
fn better_takes_the_smaller_when_minimizing() {
    assert_eq!(Direction::Minimize.better(3, 5), 3);
    assert_eq!(Direction::Minimize.better(5, 3), 3);
    assert_eq!(Direction::Minimize.better(-4, -4), -4);
    assert!(Direction::Minimize.is_minimize());
}

#[test]
fn better_takes_the_larger_when_maximizing() {
    assert_eq!(Direction::Maximize.better(3, 5), 5);
    assert_eq!(Direction::Maximize.better(5, 3), 5);
    assert_eq!(Direction::Maximize.better(i64::MIN, i64::MAX), i64::MAX);
    assert!(!Direction::Maximize.is_minimize());
}

#[test]
fn extension_holds_the_last_value_forward() {
    let mut series = vec![None, Some(7), Some(4)];
    extend_to(&mut series, 5);
    assert_eq!(series, vec![None, Some(7), Some(4), Some(4), Some(4), Some(4)]);
}

#[test]
fn extension_of_an_unset_series_stays_unset() {
    let mut series: Vec<Option<i64>> = vec![None];
    extend_to(&mut series, 2);
    assert_eq!(series, vec![None, None, None]);
}

#[test]
fn extension_leaves_a_series_that_covers_the_step() {
    let mut series = vec![Some(1), Some(0)];
    extend_to(&mut series, 1);
    assert_eq!(series, vec![Some(1), Some(0)]);
    extend_to(&mut series, 0);
    assert_eq!(series, vec![Some(1), Some(0)]);
}

#[test]
fn first_observation_fills_from_its_step() {
    assert_eq!(run(Direction::Minimize, &[(2, 9)]), vec![None, None, Some(9)]);
    assert_eq!(run(Direction::Minimize, &[(0, 9)]), vec![Some(9)]);
}

#[test]
fn minimizing_run_keeps_the_least_value_so_far() {
    assert_eq!(
        run(Direction::Minimize, &[(0, 5), (1, 3), (2, 4)]),
        vec![Some(5), Some(3), Some(3)]
    );
    assert_eq!(
        run(Direction::Minimize, &[(0, 6), (1, 2), (2, 2)]),
        vec![Some(6), Some(2), Some(2)]
    );
}

#[test]
fn maximizing_run_keeps_the_greatest_value_so_far() {
    assert_eq!(
        run(Direction::Maximize, &[(0, 5), (1, 3), (2, 8)]),
        vec![Some(5), Some(5), Some(8)]
    );
}

#[test]
fn sweep_stops_at_the_first_better_slot() {
    // The value 4 improves steps 1 and 2 and stops at step 3, which holds 2;
    // step 4 holds 9 only in a series that is no best-so-far series, and
    // stays as it is.
    let mut series = vec![Some(10), Some(8), Some(6), Some(2), Some(9)];
    observe(&mut series, 1, 4, Direction::Minimize);
    assert_eq!(series, vec![Some(10), Some(4), Some(4), Some(2), Some(9)]);
}

#[test]
fn equal_value_keeps_sweeping() {
    let mut series = vec![Some(5), Some(5), Some(7)];
    observe(&mut series, 0, 5, Direction::Minimize);
    assert_eq!(series, vec![Some(5), Some(5), Some(5)]);
}

#[test]
fn worse_value_changes_nothing_but_the_length() {
    let mut series = vec![Some(5)];
    observe(&mut series, 3, 7, Direction::Minimize);
    assert_eq!(series, vec![Some(5), Some(5), Some(5), Some(5)]);
}

#[test]
fn late_observation_of_an_early_step_fills_the_gap() {
    assert_eq!(
        run(Direction::Minimize, &[(2, 5), (0, 7)]),
        vec![Some(7), Some(7), Some(5)]
    );
    assert_eq!(
        run(Direction::Minimize, &[(2, 5), (0, 7), (1, 3)]),
        vec![Some(7), Some(3), Some(3)]
    );
}

#[test]
fn series_is_monotone_after_every_observation() {
    let trials = [(4usize, 10i64), (1, 12), (6, 3), (0, 20), (3, 11), (2, 1), (9, 0), (5, 2)];
    for direction in [Direction::Minimize, Direction::Maximize] {
        let mut series = vec![None];
        for (step, value) in trials {
            let before = series.clone();
            observe(&mut series, step, value, direction);
            assert!(never_gets_worse(&series, direction));
            assert!(series.len() >= before.len());
            for (old, new) in before.iter().zip(series.iter()) {
                if let Some(a) = old {
                    let b = new.expect("a set slot stays set");
                    assert_eq!(direction.better(*a, b), b);
                }
            }
        }
    }
}
