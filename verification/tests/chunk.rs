use ecs_core::chunk::{heightmap_cells, Chunk};

#[test]
fn cells_go_row_by_row_around_the_position() {
    // rows keep the second coordinate, and lie around the first coordinate
    // of the position
    assert_eq!(
        heightmap_cells(&(10, 20), 1),
        Some(vec![
            (19, 9), (20, 9), (21, 9), //
            (19, 10), (20, 10), (21, 10), //
            (19, 11), (20, 11), (21, 11),
        ])
    );
    assert_eq!(heightmap_cells(&(-3, 7), 0), Some(vec![(7, -3)]));
    assert_eq!(heightmap_cells(&(0, 0), 2).unwrap().len(), 25);
    assert_eq!(heightmap_cells(&(0, 0), 255).unwrap().len(), 511 * 511);
}

#[test]
fn a_square_over_the_edge_is_refused() {
    assert_eq!(heightmap_cells(&(i64::MAX, 0), 1), None);
    assert_eq!(heightmap_cells(&(0, i64::MIN), 1), None);
    assert_eq!(heightmap_cells(&(i64::MAX, i64::MIN), 0), Some(vec![(i64::MIN, i64::MAX)]));
    assert!(heightmap_cells(&(i64::MAX - 2, i64::MIN + 2), 2).is_some());
}

#[test]
fn columns_are_filled_from_the_ground_up() {
    let chunk = Chunk::new([4, 5], &vec![((0, 0), 2), ((1, 0), -1), ((0, 1), 0)]);
    assert_eq!(chunk.pos, [4, 5]);
    let positions: Vec<[i64; 3]> = chunk.tiles.iter().map(|tile| tile.pos).collect();
    assert_eq!(positions, vec![[0, 0, 0], [0, 0, 1], [0, 0, 2], [0, 1, 0]]);
    assert!(chunk.tiles.iter().all(|tile| tile.texture_name == "grass"));
}

#[test]
fn no_columns_no_tiles() {
    let chunk = Chunk::new([0, 0], &Vec::new());
    assert!(chunk.tiles.is_empty());
}
