use tile_route::coordinates::Coordinates;
use tile_route::feature::{GeometryType, RawFeature};

fn num(v: i64) -> Coordinates {
    Coordinates::Scalar(v)
}

fn seq(items: Vec<Coordinates>) -> Coordinates {
    Coordinates::Sequence(items)
}

fn pos(x: i64, y: i64) -> Coordinates {
    seq(vec![num(x), num(y)])
}

fn feature(geometry_type: GeometryType, coordinates: Coordinates) -> RawFeature {
    RawFeature { id: 1, layer_name: "route".to_string(), geometry_type, coordinates }
}

#[test]
fn flatten_keeps_depth_first_order() {
    let nested = seq(vec![pos(1, 2), pos(3, 4)]);
    assert_eq!(nested.flatten(), vec![1, 2, 3, 4]);
}

#[test]
fn flatten_of_a_number_is_the_number() {
    assert_eq!(num(-17).flatten(), vec![-17]);
}

#[test]
fn flatten_of_an_empty_sequence_is_empty() {
    assert_eq!(seq(vec![]).flatten(), Vec::<i64>::new());
    assert_eq!(seq(vec![seq(vec![]), seq(vec![seq(vec![])])]).flatten(), Vec::<i64>::new());
}

#[test]
fn flatten_handles_every_depth() {
    let point = pos(1, 2);
    let line = seq(vec![pos(1, 2), pos(3, 4), pos(5, 6)]);
    let polygon = seq(vec![seq(vec![pos(1, 2), pos(3, 4)]), seq(vec![pos(5, 6)])]);
    let multi = seq(vec![
        seq(vec![seq(vec![pos(1, 2)]), seq(vec![pos(3, 4), pos(5, 6)])]),
        seq(vec![seq(vec![pos(7, 8)])]),
    ]);
    assert_eq!(point.flatten(), vec![1, 2]);
    assert_eq!(line.flatten(), vec![1, 2, 3, 4, 5, 6]);
    assert_eq!(polygon.flatten(), vec![1, 2, 3, 4, 5, 6]);
    assert_eq!(multi.flatten(), vec![1, 2, 3, 4, 5, 6, 7, 8]);
}

#[test]
fn flatten_takes_mixed_nesting_as_it_comes() {
    let mixed = seq(vec![num(1), seq(vec![num(2), seq(vec![num(3)])]), num(4)]);
    assert_eq!(mixed.flatten(), vec![1, 2, 3, 4]);
}

#[test]
fn positions_at_every_depth_flatten_to_whole_pairs() {
    let values = vec![
        (0u8, pos(1, 2)),
        (1, seq(vec![pos(1, 2), pos(3, 4), pos(5, 6)])),
        (2, seq(vec![seq(vec![pos(1, 2)]), seq(vec![]), seq(vec![pos(3, 4), pos(5, 6)])])),
        (3, seq(vec![seq(vec![seq(vec![pos(1, 2), pos(3, 4)])])])),
    ];
    for (depth, value) in values {
        assert!(value.holds_positions(depth));
        assert_eq!(value.flatten().len() % 2, 0);
    }
}

#[test]
fn holds_positions_tells_depths_apart() {
    let line = seq(vec![pos(1, 2), pos(3, 4)]);
    assert!(line.holds_positions(1));
    assert!(!line.holds_positions(0));
    assert!(!line.holds_positions(2));
    assert!(!num(1).holds_positions(0));
    assert!(!num(1).holds_positions(1));
    assert!(!seq(vec![num(1), num(2), num(3)]).holds_positions(0));
    assert!(!seq(vec![num(1)]).holds_positions(0));
    assert!(!seq(vec![num(1), pos(2, 3)]).holds_positions(0));
    assert!(!seq(vec![pos(1, 2), num(3)]).holds_positions(1));
    assert!(seq(vec![]).holds_positions(1));
    assert!(!seq(vec![]).holds_positions(0));
}

#[test]
fn a_lone_number_flattens_to_an_odd_count() {
    assert_eq!(seq(vec![num(1), num(2), num(3)]).flatten().len(), 3);
}

#[test]
fn geometry_types_nest_as_deep_as_their_kind() {
    assert_eq!(GeometryType::Point.nesting_depth(), 0);
    assert_eq!(GeometryType::LineString.nesting_depth(), 1);
    assert_eq!(GeometryType::MultiPoint.nesting_depth(), 1);
    assert_eq!(GeometryType::Polygon.nesting_depth(), 2);
    assert_eq!(GeometryType::MultiLineString.nesting_depth(), 2);
    assert_eq!(GeometryType::MultiPolygon.nesting_depth(), 3);
}

#[test]
fn features_are_well_shaped_when_depth_fits_the_kind() {
    let line = || seq(vec![pos(1, 2), pos(3, 4)]);
    assert!(feature(GeometryType::Point, pos(1, 2)).is_well_shaped());
    assert!(feature(GeometryType::LineString, line()).is_well_shaped());
    assert!(feature(GeometryType::MultiPoint, line()).is_well_shaped());
    assert!(feature(GeometryType::Polygon, seq(vec![line()])).is_well_shaped());
    assert!(feature(GeometryType::MultiLineString, seq(vec![line(), line()])).is_well_shaped());
    assert!(feature(GeometryType::MultiPolygon, seq(vec![seq(vec![line()])])).is_well_shaped());
    assert!(!feature(GeometryType::Point, line()).is_well_shaped());
    assert!(!feature(GeometryType::LineString, pos(1, 2)).is_well_shaped());
    assert!(!feature(GeometryType::Polygon, line()).is_well_shaped());
    assert!(!feature(GeometryType::MultiPolygon, seq(vec![line()])).is_well_shaped());
}

#[test]
fn a_copy_has_the_same_numbers_in_the_same_nesting() {
    let value = seq(vec![seq(vec![pos(1, 2), pos(3, 4)]), seq(vec![]), num(5)]);
    let copy = value.clone();
    assert_eq!(copy, value);
    assert_eq!(copy.flatten(), vec![1, 2, 3, 4, 5]);
    let shaped = feature(GeometryType::LineString, seq(vec![pos(1, 2), pos(3, 4)]));
    assert_eq!(shaped.clone(), shaped);
    assert!(shaped.clone().is_well_shaped());
}
