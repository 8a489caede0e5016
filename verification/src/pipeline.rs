//! One step of the tile walk: what a decoded tile adds to the route.

use crate::feature::{select_layer, selected, Layer, RawFeature};
use crate::route::{
    all_pairs_present, lemma_merge_covers, lemma_merge_extends, lemma_merge_known_pairs,
    merge_batch, merge_into, AccumulatedRoute,
};
use vstd::prelude::*;

verus! {

/// `route` after `features`, taken in order: each feature's coordinates are
/// flattened and merged under the feature's identity.
pub open spec fn absorbed(route: Map<u64, Seq<i64>>, features: Seq<RawFeature>) -> Map<
    u64,
    Seq<i64>,
>
    decreases features.len(),
{
    if features.len() == 0 {
        route
    } else {
        merge_into(
            absorbed(route, features.drop_last()),
            features.last().id,
            features.last().coordinates.flat(),
        )
    }
}

/// Takes one decoded tile into the route: the features of the layer named
/// exactly `target` are merged in the order in which the tile lists them. A
/// tile without that layer leaves the route as it is.
pub fn process_tile(route: &mut AccumulatedRoute, layers: &Vec<Layer>, target: &str)
    ensures
        final(route)@ == absorbed(old(route)@, selected(layers@, target@)),
{
    let features = select_layer(layers, target);
    let ghost chosen = selected(layers@, target@);
    let mut k: usize = 0;
    while k < features.len()
        invariant
            k <= features@.len(),
            features@.len() == chosen.len(),
            forall|j: int| 0 <= j < features@.len() ==> *#[trigger] features@[j] == chosen[j],
            route@ == absorbed(old(route)@, chosen.take(k as int)),
        decreases features@.len() - k,
    {
        let feature: &RawFeature = features[k];
        proof {
            assert(chosen.take(k + 1).drop_last() =~= chosen.take(k as int));
            assert(chosen.take(k + 1).last() == *feature);
        }
        let numbers = feature.coordinates.flatten();
        route.merge(feature.id, numbers);
        k = k + 1;
    }
    assert(chosen.take(k as int) =~= chosen);
}

/// Whether `route` already holds every pair of coordinates of `features`,
/// each under the identity of its feature.
pub open spec fn holds_all(route: Map<u64, Seq<i64>>, features: Seq<RawFeature>) -> bool {
    forall|k: int|
        0 <= k < features.len() ==> route.dom().contains((#[trigger] features[k]).id)
            && all_pairs_present(route[features[k].id], features[k].coordinates.flat())
}

proof fn lemma_pairs_stay(route: Map<u64, Seq<i64>>, id: u64, batch: Seq<i64>, other: RawFeature)
    requires
        route.dom().contains(other.id),
        all_pairs_present(route[other.id], other.coordinates.flat()),
    ensures
        merge_into(route, id, batch).dom().contains(other.id),
        all_pairs_present(merge_into(route, id, batch)[other.id], other.coordinates.flat()),
{
    if other.id == id {
        let before = route[id];
        let after = merge_batch(before, batch);
        let pairs = other.coordinates.flat();
        lemma_merge_extends(before, batch);
        assert forall|k: int| 0 <= k < pairs.len() / 2 implies crate::route::has_window(
            after,
            #[trigger] pairs[2 * k],
            pairs[2 * k + 1],
        ) by {
            let at = choose|i: int|
                0 <= i && i + 1 < before.len() && #[trigger] before[i] == pairs[2 * k] && before[i
                    + 1] == pairs[2 * k + 1];
            assert(after[at] == pairs[2 * k] && after[at + 1] == pairs[2 * k + 1]);
        }
    }
}

proof fn lemma_absorbed_holds_all(route: Map<u64, Seq<i64>>, features: Seq<RawFeature>)
    ensures
        holds_all(absorbed(route, features), features),
    decreases features.len(),
{
    if features.len() > 0 {
        let earlier = features.drop_last();
        let last = features.last();
        let before = absorbed(route, earlier);
        let after = absorbed(route, features);
        let batch = last.coordinates.flat();
        lemma_absorbed_holds_all(route, earlier);
        assert forall|k: int| 0 <= k < features.len() implies after.dom().contains(
            (#[trigger] features[k]).id,
        ) && all_pairs_present(after[features[k].id], features[k].coordinates.flat()) by {
            if k < features.len() - 1 {
                assert(features[k] == earlier[k]);
                lemma_pairs_stay(before, last.id, batch, features[k]);
            } else if before.dom().contains(last.id) {
                lemma_merge_covers(before[last.id], batch);
            } else {
                assert forall|j: int| 0 <= j < batch.len() / 2 implies crate::route::has_window(
                    batch,
                    #[trigger] batch[2 * j],
                    batch[2 * j + 1],
                ) by {
                    assert(batch[2 * j] == batch[2 * j] && 2 * j + 1 < batch.len());
                }
            }
        }
    }
}

/// Features whose pairs the route already holds leave it as it is.
pub proof fn lemma_known_features_change_nothing(
    route: Map<u64, Seq<i64>>,
    features: Seq<RawFeature>,
)
    requires
        holds_all(route, features),
    ensures
        absorbed(route, features) == route,
    decreases features.len(),
{
    if features.len() > 0 {
        let earlier = features.drop_last();
        let last = features.last();
        assert forall|k: int| 0 <= k < earlier.len() implies route.dom().contains(
            (#[trigger] earlier[k]).id,
        ) && all_pairs_present(route[earlier[k].id], earlier[k].coordinates.flat()) by {
            assert(earlier[k] == features[k]);
        }
        lemma_known_features_change_nothing(route, earlier);
        assert(route.dom().contains(last.id));
        lemma_merge_known_pairs(route[last.id], last.coordinates.flat());
        assert(merge_into(route, last.id, last.coordinates.flat()) =~= route);
    }
}

/// A tile that is delivered a second time changes nothing: once its features
/// are merged, merging them again leaves the route as it is.
pub proof fn lemma_tile_twice_is_tile_once(route: Map<u64, Seq<i64>>, features: Seq<RawFeature>)
    ensures
        absorbed(absorbed(route, features), features) == absorbed(route, features),
{
    lemma_absorbed_holds_all(route, features);
    lemma_known_features_change_nothing(absorbed(route, features), features);
}

} // verus!
