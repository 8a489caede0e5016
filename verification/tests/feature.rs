use tile_route::coordinates::Coordinates;
use tile_route::feature::{select_layer, GeometryType, Layer, RawFeature};

fn line(id: u64, layer: &str, numbers: &[i64]) -> RawFeature {
    let positions = numbers
        .chunks(2)
        .map(|p| Coordinates::Sequence(p.iter().map(|v| Coordinates::Scalar(*v)).collect()))
        .collect();
    RawFeature {
        id,
        layer_name: layer.to_string(),
        geometry_type: GeometryType::LineString,
        coordinates: Coordinates::Sequence(positions),
    }
}

fn layer(name: &str, features: Vec<RawFeature>) -> Layer {
    Layer { name: name.to_string(), features }
}

#[test]
fn filter_returns_the_features_of_the_target_layer() {
    let layers = vec![
        layer("roads", vec![line(1, "roads", &[0, 0, 1, 1]), line(2, "roads", &[5, 5, 6, 6])]),
        layer("target", vec![line(3, "target", &[1, 2, 3, 4]), line(4, "target", &[3, 4, 5, 6])]),
    ];
    let f1 = line(3, "target", &[1, 2, 3, 4]);
    let f2 = line(4, "target", &[3, 4, 5, 6]);
    assert_eq!(select_layer(&layers, "target"), vec![&f1, &f2]);
}

#[test]
fn filter_yields_nothing_without_the_layer() {
    let layers = vec![layer("roads", vec![line(1, "roads", &[0, 0, 1, 1])])];
    assert!(select_layer(&layers, "target").is_empty());
    assert!(select_layer(&Vec::new(), "target").is_empty());
}

#[test]
fn filter_matches_the_name_exactly() {
    let layers = vec![
        layer("Target", vec![line(1, "Target", &[0, 0])]),
        layer("target ", vec![line(2, "target ", &[0, 0])]),
        layer("targets", vec![line(3, "targets", &[0, 0])]),
        layer("targe", vec![line(4, "targe", &[0, 0])]),
        layer("", vec![line(5, "", &[0, 0])]),
    ];
    assert!(select_layer(&layers, "target").is_empty());
    let ids: Vec<u64> = select_layer(&layers, "").iter().map(|f| f.id).collect();
    assert_eq!(ids, vec![5]);
}

#[test]
fn filter_goes_by_the_enclosing_layer() {
    let layers = vec![
        layer("roads", vec![line(1, "target", &[0, 0])]),
        layer("target", vec![line(2, "roads", &[1, 1])]),
    ];
    let ids: Vec<u64> = select_layer(&layers, "target").iter().map(|f| f.id).collect();
    assert_eq!(ids, vec![2]);
}

#[test]
fn filter_joins_layers_of_the_same_name_in_order() {
    let layers = vec![
        layer("target", vec![line(9, "target", &[0, 0]), line(3, "target", &[1, 1])]),
        layer("water", vec![line(4, "water", &[2, 2])]),
        layer("target", vec![]),
        layer("target", vec![line(1, "target", &[3, 3])]),
    ];
    let ids: Vec<u64> = select_layer(&layers, "target").iter().map(|f| f.id).collect();
    assert_eq!(ids, vec![9, 3, 1]);
}
