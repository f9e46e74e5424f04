use minesweeper::utils::neighbors::Neighbors;

#[test]
fn corner_top_left_neighbors_3x4() {
    let neighbors = Neighbors::new(0, 0, 3, 4);
    let expected = vec![(0, 1), (1, 0), (1, 1)];
    let result: Vec<(usize, usize)> = neighbors.collect();
    assert_eq!(result, expected);
}

#[test]
fn corner_top_right_neighbors_3x4() {
    let neighbors = Neighbors::new(0, 3, 3, 4);
    let expected = vec![(0, 2), (1, 2), (1, 3)];
    let result: Vec<(usize, usize)> = neighbors.collect();
    assert_eq!(result, expected);
}

#[test]
fn edge_top_middle_neighbors_3x4() {
    let neighbors = Neighbors::new(0, 2, 3, 4);
    let expected = vec![(0, 1), (0, 3), (1, 1), (1, 2), (1, 3)];
    let result: Vec<(usize, usize)> = neighbors.collect();
    assert_eq!(result, expected);
}

#[test]
fn edge_left_middle_neighbors_3x4() {
    let neighbors = Neighbors::new(1, 0, 3, 4);
    let expected = vec![(0, 0), (0, 1), (1, 1), (2, 0), (2, 1)];
    let result: Vec<(usize, usize)> = neighbors.collect();
    assert_eq!(result, expected);
}

#[test]
fn middle_cell_neighbors_3x4() {
    let neighbors = Neighbors::new(1, 2, 3, 4);
    let expected = vec![
        (0, 1),
        (0, 2),
        (0, 3),
        (1, 1),
        (1, 3),
        (2, 1),
        (2, 2),
        (2, 3),
    ];
    let result: Vec<(usize, usize)> = neighbors.collect();
    assert_eq!(result.len(), expected.len());
    for neighbor in expected {
        assert!(result.contains(&neighbor));
    }
}
