use stone_genome::codec::Interval;
use stone_genome::densify::{
    column_overlaps, column_value, densify, first_overlap, next_covered, position_overlaps,
};

fn iv(value: i32, start: usize, end: usize) -> Interval {
    Interval { value, start, end }
}

#[test]
fn densify_two_columns() {
    let cols = vec![vec![iv(3, 0, 2), iv(7, 5, 5)], vec![iv(4, 2, 3)]];
    let rows = densify(&cols);
    let got: Vec<(usize, Vec<i32>)> = rows.into_iter().map(|r| (r.position, r.values)).collect();
    assert_eq!(
        got,
        vec![
            (0, vec![3, 0]),
            (1, vec![3, 0]),
            (2, vec![3, 4]),
            (3, vec![0, 4]),
            (5, vec![7, 0]),
        ]
    );
}

#[test]
fn densify_ignores_zero_intervals_for_cover() {
    let cols = vec![vec![iv(0, 0, 9)], vec![iv(2, 4, 4)]];
    let rows = densify(&cols);
    assert_eq!(rows.len(), 1);
    assert_eq!(rows[0].position, 4);
    assert_eq!(rows[0].values, vec![0, 2]);
}

#[test]
fn densify_of_nothing_is_empty() {
    assert_eq!(densify(&vec![]).len(), 0);
    assert_eq!(densify(&vec![vec![], vec![]]).len(), 0);
}

#[test]
fn densify_reaches_last_position() {
    let cols = vec![vec![iv(1, usize::MAX - 1, usize::MAX)]];
    let rows = densify(&cols);
    assert_eq!(rows.len(), 2);
    assert_eq!(rows[1].position, usize::MAX);
}

#[test]
fn later_interval_wins_and_overlap_is_reported() {
    let col = vec![iv(1, 0, 5), iv(2, 3, 8)];
    assert_eq!(column_value(&col, 4), 2);
    assert_eq!(column_value(&col, 1), 1);
    assert_eq!(column_value(&col, 9), 0);
    assert!(column_overlaps(&col, 4));
    assert!(!column_overlaps(&col, 1));
    assert!(!column_overlaps(&col, 9));
}

#[test]
fn next_covered_position() {
    let spans = vec![iv(1, 10, 12), iv(2, 3, 4)];
    assert_eq!(next_covered(&spans, 0), Some(3));
    assert_eq!(next_covered(&spans, 4), Some(4));
    assert_eq!(next_covered(&spans, 5), Some(10));
    assert_eq!(next_covered(&spans, 13), None);
}

#[test]
fn overlap_is_found_at_its_first_row() {
    let cols = vec![vec![iv(1, 0, 1)], vec![iv(1, 2, 5), iv(2, 4, 8)]];
    let rows = densify(&cols);
    assert_eq!(rows.len(), 9);
    assert_eq!(first_overlap(&cols, &rows), Some(4));
    assert_eq!(rows[4].values, vec![0, 2]);
    assert!(position_overlaps(&cols, 5));
    assert!(!position_overlaps(&cols, 3));
    let sound = vec![vec![iv(1, 0, 1), iv(2, 2, 3)]];
    assert_eq!(first_overlap(&sound, &densify(&sound)), None);
}
