use tile_route::grid::{tiles_between, GridWalker, TileCoordinate};

fn tile(x: u32, y: u32) -> TileCoordinate {
    TileCoordinate::new(x, y, 14)
}

#[test]
fn grid_two_by_two_includes_both_corners() {
    let tiles = tiles_between(tile(0, 0), tile(1, 1)).unwrap();
    assert_eq!(tiles, vec![tile(0, 0), tile(0, 1), tile(1, 0), tile(1, 1)]);
}

#[test]
fn grid_walks_column_by_column() {
    let tiles = tiles_between(tile(4685, 6265), tile(4687, 6266)).unwrap();
    assert_eq!(
        tiles,
        vec![
            tile(4685, 6265),
            tile(4685, 6266),
            tile(4686, 6265),
            tile(4686, 6266),
            tile(4687, 6265),
            tile(4687, 6266),
        ]
    );
}

#[test]
fn grid_keeps_the_zoom_of_the_corners() {
    let tiles = tiles_between(TileCoordinate::new(2, 3, 9), TileCoordinate::new(2, 4, 9)).unwrap();
    assert_eq!(tiles.len(), 2);
    assert!(tiles.iter().all(|t| t.z == 9));
}

#[test]
fn grid_of_one_tile() {
    let tiles = tiles_between(tile(7, 9), tile(7, 9)).unwrap();
    assert_eq!(tiles, vec![tile(7, 9)]);
}

#[test]
fn grid_is_empty_when_corners_are_crossed() {
    assert_eq!(tiles_between(tile(2, 0), tile(1, 5)).unwrap(), vec![]);
    assert_eq!(tiles_between(tile(0, 6), tile(3, 5)).unwrap(), vec![]);
}

#[test]
fn grid_refuses_corners_at_different_zoom() {
    let a = TileCoordinate::new(0, 0, 3);
    let b = TileCoordinate::new(1, 1, 4);
    assert!(tiles_between(a, b).is_none());
    assert!(GridWalker::new(a, b).is_none());
}

#[test]
fn grid_reaches_the_last_column_and_row() {
    let last = u32::MAX;
    let tiles = tiles_between(tile(last - 1, last - 1), tile(last, last)).unwrap();
    assert_eq!(
        tiles,
        vec![
            tile(last - 1, last - 1),
            tile(last - 1, last),
            tile(last, last - 1),
            tile(last, last),
        ]
    );
}

#[test]
fn walker_hands_out_each_tile_once_and_then_nothing() {
    let mut walker = GridWalker::new(tile(0, 0), tile(1, 1)).unwrap();
    assert_eq!(walker.next_tile(), Some(tile(0, 0)));
    assert_eq!(walker.next_tile(), Some(tile(0, 1)));
    assert_eq!(walker.next_tile(), Some(tile(1, 0)));
    assert_eq!(walker.next_tile(), Some(tile(1, 1)));
    assert_eq!(walker.next_tile(), None);
    assert_eq!(walker.next_tile(), None);
}

#[test]
fn walker_collects_what_is_left() {
    let mut walker = GridWalker::new(tile(0, 0), tile(1, 2)).unwrap();
    assert_eq!(walker.next_tile(), Some(tile(0, 0)));
    assert_eq!(walker.next_tile(), Some(tile(0, 1)));
    assert_eq!(walker.collect(), vec![tile(0, 2), tile(1, 0), tile(1, 1), tile(1, 2)]);
}

#[test]
fn walker_over_crossed_corners_is_over_at_once() {
    let mut walker = GridWalker::new(tile(5, 5), tile(4, 9)).unwrap();
    assert_eq!(walker.next_tile(), None);
}

#[test]
fn grid_has_one_tile_per_column_and_row() {
    let tiles = tiles_between(tile(10, 20), tile(16, 24)).unwrap();
    assert_eq!(tiles.len(), 7 * 5);
    for (i, t) in tiles.iter().enumerate() {
        assert_eq!(t.x as usize, 10 + i / 5);
        assert_eq!(t.y as usize, 20 + i % 5);
    }
    for pair in tiles.windows(2) {
        assert!((pair[0].x, pair[0].y) < (pair[1].x, pair[1].y));
    }
}
