//! Decoded vector features, the layers that hold them, and the filter that
//! keeps the features of one layer.

use crate::coordinates::Coordinates;
use vstd::prelude::*;

verus! {

/// The kind of geometry that a feature describes.
#[derive(Clone, Copy, Debug, PartialEq, Eq, Structural)]
pub enum GeometryType {
    Point,
    LineString,
    Polygon,
    MultiPoint,
    MultiLineString,
    MultiPolygon,
}

impl GeometryType {
    /// How many sequences deep the positions of such a geometry are nested:
    /// a point is one position, a line a sequence of positions, and so on.
    pub open spec fn depth(self) -> nat {
        match self {
            GeometryType::Point => 0,
            GeometryType::LineString | GeometryType::MultiPoint => 1,
            GeometryType::Polygon | GeometryType::MultiLineString => 2,
            GeometryType::MultiPolygon => 3,
        }
    }

    /// How many sequences deep the positions of such a geometry are nested.
    pub fn nesting_depth(self) -> (depth: u8)
        ensures
            depth == self.depth(),
    {
        match self {
            GeometryType::Point => 0,
            GeometryType::LineString | GeometryType::MultiPoint => 1,
            GeometryType::Polygon | GeometryType::MultiLineString => 2,
            GeometryType::MultiPolygon => 3,
        }
    }
}

/// One vector feature as decoded from one tile. The same real-world feature
/// keeps its `id` from tile to tile.
#[derive(Clone, Debug, PartialEq, Eq)]
pub struct RawFeature {
    pub id: u64,
    pub layer_name: String,
    pub geometry_type: GeometryType,
    pub coordinates: Coordinates,
}

impl RawFeature {
    /// Whether the coordinates are nested as the geometry type calls for.
    pub open spec fn well_shaped(self) -> bool {
        self.coordinates.nests_positions(self.geometry_type.depth())
    }

    /// Whether the coordinates are nested as the geometry type calls for.
    pub fn is_well_shaped(&self) -> (shaped: bool)
        ensures
            shaped == self.well_shaped(),
    {
        self.coordinates.holds_positions(self.geometry_type.nesting_depth())
    }
}

/// A named layer of a decoded tile.
#[derive(Clone, Debug, PartialEq, Eq)]
pub struct Layer {
    pub name: String,
    pub features: Vec<RawFeature>,
}

/// The features of the layers named exactly `target`, layer after layer and
/// within a layer in the layer's own order.
pub open spec fn selected(layers: Seq<Layer>, target: Seq<char>) -> Seq<RawFeature>
    decreases layers.len(),
{
    if layers.len() == 0 {
        Seq::empty()
    } else {
        selected(layers.drop_last(), target) + if layers.last().name@ == target {
            layers.last().features@
        } else {
            Seq::empty()
        }
    }
}

/// Keeps the features whose layer is named exactly `target`. A tile without
/// such a layer yields no features.
pub fn select_layer<'a>(layers: &'a Vec<Layer>, target: &str) -> (features: Vec<&'a RawFeature>)
    ensures
        features@.len() == selected(layers@, target@).len(),
        forall|k: int|
            0 <= k < features@.len() ==> *#[trigger] features@[k] == selected(
                layers@,
                target@,
            )[k],
{
    let wanted: String = target.to_owned();
    let mut features: Vec<&'a RawFeature> = Vec::new();
    let mut i: usize = 0;
    while i < layers.len()
        invariant
            i <= layers.len(),
            wanted@ == target@,
            features@.len() == selected(layers@.take(i as int), target@).len(),
            forall|k: int|
                0 <= k < features@.len() ==> *#[trigger] features@[k] == selected(
                    layers@.take(i as int),
                    target@,
                )[k],
        decreases layers.len() - i,
    {
        let layer = &layers[i];
        let ghost earlier = selected(layers@.take(i as int), target@);
        proof {
            assert(layers@.take(i + 1).drop_last() =~= layers@.take(i as int));
            assert(layers@.take(i + 1).last() == *layer);
        }
        if layer.name == wanted {
            let mut j: usize = 0;
            while j < layer.features.len()
                invariant
                    j <= layer.features.len(),
                    features@.len() == earlier.len() + j,
                    forall|k: int|
                        0 <= k < features@.len() ==> *#[trigger] features@[k] == (earlier
                            + layer.features@)[k],
                decreases layer.features.len() - j,
            {
                features.push(&layer.features[j]);
                j = j + 1;
            }
        }
        i = i + 1;
    }
    assert(layers@.take(i as int) =~= layers@);
    features
}

} // verus!
