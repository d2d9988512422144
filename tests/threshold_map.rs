use pixel_dither::threshold::{ConfigError, ThresholdMap};

#[test]
fn map_rejects_no_rows() {
    assert!(matches!(ThresholdMap::new(&vec![]), Err(ConfigError::Empty)));
}

#[test]
fn map_rejects_ragged_rows() {
    let rows = vec![vec![0, 2], vec![3]];
    assert!(matches!(ThresholdMap::new(&rows), Err(ConfigError::NotSquare)));
    let rows = vec![vec![0, 1, 2, 3]];
    assert!(matches!(ThresholdMap::new(&rows), Err(ConfigError::NotSquare)));
}

#[test]
fn map_rejects_value_out_of_range() {
    let rows = vec![vec![0, 2], vec![4, 1]];
    assert!(matches!(ThresholdMap::new(&rows), Err(ConfigError::OutOfRange)));
}

#[test]
fn map_reports_range_before_duplicates() {
    let rows = vec![vec![0, 0], vec![9, 1]];
    assert!(matches!(ThresholdMap::new(&rows), Err(ConfigError::OutOfRange)));
}

#[test]
fn map_rejects_duplicate_value() {
    let rows = vec![vec![0, 2], vec![2, 1]];
    assert!(matches!(ThresholdMap::new(&rows), Err(ConfigError::Duplicate)));
}

#[test]
fn map_rejects_too_many_rows() {
    let rows: Vec<Vec<usize>> = (0..257).map(|_| Vec::new()).collect();
    assert!(matches!(ThresholdMap::new(&rows), Err(ConfigError::TooLarge)));
}

#[test]
fn map_indexes_by_tile_position() {
    let m = ThresholdMap::new(&vec![vec![0, 2], vec![3, 1]]).unwrap();
    assert_eq!(m.size(), 2);
    assert_eq!(m.index(0, 0), 0);
    assert_eq!(m.index(0, 1), 2);
    assert_eq!(m.index(1, 0), 3);
    assert_eq!(m.index(1, 1), 1);
    assert_eq!(m.index(2, 3), 2);
    assert_eq!(m.index(5, 4), 3);
}

#[test]
fn default_map_matches_rows() {
    let m = ThresholdMap::default_map();
    let built = ThresholdMap::new(&vec![vec![0, 2], vec![3, 1]]).unwrap();
    for x in 0..6 {
        for y in 0..6 {
            assert_eq!(m.index(x, y), built.index(x, y));
        }
    }
}

#[test]
fn every_rank_lies_in_range() {
    let rows = vec![
        vec![0, 8, 2, 10],
        vec![12, 4, 14, 6],
        vec![3, 11, 1, 9],
        vec![15, 7, 13, 5],
    ];
    let m = ThresholdMap::new(&rows).unwrap();
    let mut seen = vec![false; 16];
    for x in 0..9 {
        for y in 0..9 {
            let r = m.index(x, y);
            assert!(r < 16);
            assert_eq!(r, rows[x % 4][y % 4]);
            seen[r] = true;
        }
    }
    assert!(seen.iter().all(|s| *s));
}
