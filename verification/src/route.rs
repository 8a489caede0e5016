//! The accumulated route: for each feature, the coordinates gathered so far.
//!
//! Neighbouring tiles deliver the vertices at their shared edge twice. A
//! merge therefore appends a pair of coordinates only when the pair does not
//! already stand at two adjacent places of the feature's sequence.

use vstd::prelude::*;

verus! {

/// Whether `x` and `y` stand at two adjacent places of `sequence`, at any
/// offset.
pub open spec fn has_window(sequence: Seq<i64>, x: i64, y: i64) -> bool {
    exists|i: int|
        0 <= i && i + 1 < sequence.len() && #[trigger] sequence[i] == x && sequence[i + 1] == y
}

/// `sequence` after one candidate pair: unchanged when the pair already
/// stands in it, else with the pair appended.
pub open spec fn merge_pair(sequence: Seq<i64>, x: i64, y: i64) -> Seq<i64> {
    if has_window(sequence, x, y) {
        sequence
    } else {
        sequence.push(x).push(y)
    }
}

/// `sequence` after the first `count` pairs of `batch`, taken in order. Each
/// pair is held against the sequence as the pairs before it left it.
pub open spec fn merge_pairs(sequence: Seq<i64>, batch: Seq<i64>, count: nat) -> Seq<i64>
    decreases count,
{
    if count == 0 {
        sequence
    } else {
        merge_pair(
            merge_pairs(sequence, batch, (count - 1) as nat),
            batch[2 * (count - 1)],
            batch[2 * (count - 1) + 1],
        )
    }
}

/// `sequence` after every pair of `batch`. A last number without a partner
/// is no pair and is passed over.
pub open spec fn merge_batch(sequence: Seq<i64>, batch: Seq<i64>) -> Seq<i64> {
    merge_pairs(sequence, batch, (batch.len() / 2) as nat)
}

/// `route` after a batch for feature `id`: a feature seen for the first time
/// gets the batch as it is, a known one gets the batch merged into its
/// sequence.
pub open spec fn merge_into(route: Map<u64, Seq<i64>>, id: u64, batch: Seq<i64>) -> Map<
    u64,
    Seq<i64>,
> {
    if route.dom().contains(id) {
        route.insert(id, merge_batch(route[id], batch))
    } else {
        route.insert(id, batch)
    }
}

/// Whether every pair of `batch` already stands in `sequence`.
pub open spec fn all_pairs_present(sequence: Seq<i64>, batch: Seq<i64>) -> bool {
    forall|k: int|
        0 <= k < batch.len() / 2 ==> has_window(sequence, #[trigger] batch[2 * k], batch[2 * k + 1])
}

/// Whether the pairs at places `j` and `k` of `pairs`, counted pair by
/// pair, are the same.
pub open spec fn same_pair(pairs: Seq<i64>, j: int, k: int) -> bool {
    pairs[2 * j] == pairs[2 * k] && pairs[2 * j + 1] == pairs[2 * k + 1]
}

/// Whether `after` is `before` with whole pairs appended, none of which
/// stands in `before` and no two of which are the same.
pub open spec fn appends_new_pairs(before: Seq<i64>, after: Seq<i64>) -> bool {
    let added = after.skip(before.len() as int);
    &&& before.is_prefix_of(after)
    &&& added.len() % 2 == 0
    &&& forall|k: int|
        0 <= k < added.len() / 2 ==> !has_window(before, #[trigger] added[2 * k], added[2 * k + 1])
    &&& forall|j: int, k: int| 0 <= j < k < added.len() / 2 ==> !#[trigger] same_pair(added, j, k)
}

/// One point of the finished route. Of a pair of coordinates the first is the
/// longitude and the second the latitude.
#[derive(Clone, Copy, Debug, PartialEq, Eq, Structural)]
pub struct Waypoint {
    pub longitude: i64,
    pub latitude: i64,
}

/// The points that `sequence` holds, pair by pair. A last number without a
/// partner is no point.
pub open spec fn points_of(sequence: Seq<i64>) -> Seq<Waypoint> {
    Seq::new(
        (sequence.len() / 2) as nat,
        |k: int| Waypoint { longitude: sequence[2 * k], latitude: sequence[2 * k + 1] },
    )
}

/// The points of the features `ids` of `route`, feature after feature.
pub open spec fn track_points(route: Map<u64, Seq<i64>>, ids: Seq<u64>) -> Seq<Waypoint>
    decreases ids.len(),
{
    if ids.len() == 0 {
        Seq::empty()
    } else {
        track_points(route, ids.drop_last()) + points_of(route[ids.last()])
    }
}

/// Whether `ids` stand in strictly ascending order.
pub open spec fn strictly_ascending(ids: Seq<u64>) -> bool {
    forall|i: int, j: int| 0 <= i < j < ids.len() ==> ids[i] < ids[j]
}

/// Whether `x` and `y` stand at two adjacent places of `sequence`.
pub fn contains_window(sequence: &Vec<i64>, x: i64, y: i64) -> (found: bool)
    ensures
        found == has_window(sequence@, x, y),
{
    if sequence.len() < 2 {
        return false;
    }
    let last: usize = sequence.len() - 1;
    let mut i: usize = 0;
    while i < last
        invariant
            i <= last,
            last + 1 == sequence.len(),
            forall|k: int| 0 <= k < i ==> !(#[trigger] sequence@[k] == x && sequence@[k + 1] == y),
        decreases last - i,
    {
        if sequence[i] == x && sequence[i + 1] == y {
            return true;
        }
        i = i + 1;
    }
    false
}

/// Merges `batch` into `sequence`: each pair of the batch, in order, is
/// appended unless it already stands in the sequence.
pub fn merge_coordinates(sequence: &mut Vec<i64>, batch: &Vec<i64>)
    ensures
        final(sequence)@ == merge_batch(old(sequence)@, batch@),
{
    let pairs: usize = batch.len() / 2;
    let mut k: usize = 0;
    while k < pairs
        invariant
            k <= pairs,
            pairs == batch.len() / 2,
            sequence@ == merge_pairs(old(sequence)@, batch@, k as nat),
        decreases pairs - k,
    {
        let x: i64 = batch[2 * k];
        let y: i64 = batch[2 * k + 1];
        if !contains_window(sequence, x, y) {
            sequence.push(x);
            sequence.push(y);
        }
        k = k + 1;
    }
}

/// The coordinates gathered for one feature.
#[derive(Debug)]
struct Track {
    id: u64,
    coords: Vec<i64>,
}

/// The place of feature `id` among `entries`.
spec fn place_of(entries: Seq<Track>, id: u64) -> int {
    choose|i: int| 0 <= i < entries.len() && (#[trigger] entries[i]).id == id
}

/// Whether the features of `entries` stand in strictly ascending order.
spec fn ascending(entries: Seq<Track>) -> bool {
    forall|i: int, j: int|
        0 <= i < j < entries.len() ==> (#[trigger] entries[i]).id < (#[trigger] entries[j]).id
}

/// What `entries` hold, feature by feature.
spec fn contents(entries: Seq<Track>) -> Map<u64, Seq<i64>> {
    Map::new(
        |id: u64| exists|i: int| 0 <= i < entries.len() && (#[trigger] entries[i]).id == id,
        |id: u64| entries[place_of(entries, id)].coords@,
    )
}

proof fn lemma_place_of(entries: Seq<Track>, i: int)
    requires
        ascending(entries),
        0 <= i < entries.len(),
    ensures
        place_of(entries, entries[i].id) == i,
        contents(entries).dom().contains(entries[i].id),
        contents(entries)[entries[i].id] == entries[i].coords@,
{
    let j = place_of(entries, entries[i].id);
    assert(0 <= j < entries.len() && entries[j].id == entries[i].id);
    if j < i {
        assert(entries[j].id < entries[i].id);
    }
    if i < j {
        assert(entries[i].id < entries[j].id);
    }
}

/// A mapping from feature to the coordinates gathered for it, kept in the
/// order of the features.
#[derive(Debug)]
pub struct AccumulatedRoute {
    entries: Vec<Track>,
}

impl View for AccumulatedRoute {
    type V = Map<u64, Seq<i64>>;

    /// The coordinates of each feature that the route holds.
    closed spec fn view(&self) -> Map<u64, Seq<i64>> {
        contents(self.entries@)
    }
}

impl Clone for AccumulatedRoute {
    /// A route that holds the same coordinates for the same features.
    fn clone(&self) -> (copy: AccumulatedRoute)
        ensures
            copy@ == self@,
    {
        proof {
            use_type_invariant(self);
        }
        let mut entries: Vec<Track> = Vec::new();
        let mut i: usize = 0;
        while i < self.entries.len()
            invariant
                i <= self.entries@.len(),
                entries@.len() == i,
                forall|k: int|
                    0 <= k < i ==> (#[trigger] entries@[k]).id == self.entries@[k].id
                        && entries@[k].coords@ == self.entries@[k].coords@,
            decreases self.entries@.len() - i,
        {
            let coords = self.entries[i].coords.clone();
            assert(coords@ =~= self.entries@[i as int].coords@);
            entries.push(Track { id: self.entries[i].id, coords });
            i = i + 1;
        }
        proof {
            lemma_entries_alike(self.entries@, entries@);
        }
        AccumulatedRoute { entries }
    }
}

impl AccumulatedRoute {
    #[verifier::type_invariant]
    spec fn ordered(self) -> bool {
        ascending(self.entries@)
    }

    /// A route that holds no feature.
    pub fn new() -> (route: AccumulatedRoute)
        ensures
            route@ == Map::<u64, Seq<i64>>::empty(),
    {
        let route = AccumulatedRoute { entries: Vec::new() };
        assert(route@ =~= Map::<u64, Seq<i64>>::empty());
        route
    }

    /// The coordinates gathered for feature `id`, if the route holds it.
    pub fn get(&self, id: u64) -> (coords: Option<&Vec<i64>>)
        ensures
            coords is Some <==> self@.dom().contains(id),
            coords matches Some(c) ==> c@ == self@[id],
    {
        proof {
            use_type_invariant(self);
        }
        let place = lower_bound(&self.entries, id);
        if place < self.entries.len() && self.entries[place].id == id {
            proof {
                lemma_place_of(self.entries@, place as int);
            }
            Some(&self.entries[place].coords)
        } else {
            proof {
                if self@.dom().contains(id) {
                    let j = place_of(self.entries@, id);
                    assert(self.entries@[j].id == id);
                    if j > place {
                        assert(self.entries@[place as int].id < self.entries@[j].id);
                    }
                }
            }
            None
        }
    }

    /// The features that the route holds, in ascending order.
    pub closed spec fn keys(self) -> Seq<u64> {
        Seq::new(self.entries@.len(), |i: int| self.entries@[i].id)
    }

    /// How many features the route holds.
    pub fn len(&self) -> (count: usize)
        ensures
            count == self.keys().len(),
            self@.dom().finite(),
            count == self@.dom().len(),
    {
        proof {
            use_type_invariant(self);
            let keys = self.keys();
            assert(keys.no_duplicates()) by {
                assert forall|i: int, j: int|
                    0 <= i < keys.len() && 0 <= j < keys.len() && i != j implies keys[i]
                    != keys[j] by {
                    if i < j {
                        assert(self.entries@[i].id < self.entries@[j].id);
                    } else {
                        assert(self.entries@[j].id < self.entries@[i].id);
                    }
                }
            }
            assert(keys.to_set() =~= self@.dom()) by {
                assert forall|id: u64| keys.to_set().contains(id) <==> self@.dom().contains(
                    id,
                ) by {
                    if keys.contains(id) {
                        let k = choose|k: int| 0 <= k < keys.len() && keys[k] == id;
                        assert(self.entries@[k].id == id);
                    }
                    if self@.dom().contains(id) {
                        let k = place_of(self.entries@, id);
                        assert(keys[k] == id);
                    }
                }
            }
            keys.unique_seq_to_set();
            vstd::seq_lib::seq_to_set_is_finite(keys);
        }
        self.entries.len()
    }

    /// The features that the route holds, in ascending order and each once.
    pub fn ids(&self) -> (ids: Vec<u64>)
        ensures
            ids@ == self.keys(),
            strictly_ascending(ids@),
            forall|id: u64| ids@.contains(id) <==> self@.dom().contains(id),
    {
        proof {
            use_type_invariant(self);
        }
        let mut ids: Vec<u64> = Vec::new();
        let mut i: usize = 0;
        while i < self.entries.len()
            invariant
                i <= self.entries@.len(),
                ids@ == self.keys().take(i as int),
            decreases self.entries@.len() - i,
        {
            ids.push(self.entries[i].id);
            assert(ids@ =~= self.keys().take(i + 1));
            i = i + 1;
        }
        proof {
            assert(ids@ =~= self.keys());
            assert forall|id: u64| ids@.contains(id) <==> self@.dom().contains(id) by {
                if ids@.contains(id) {
                    let k = choose|k: int| 0 <= k < ids@.len() && ids@[k] == id;
                    assert(self.entries@[k].id == id);
                }
                if self@.dom().contains(id) {
                    let k = place_of(self.entries@, id);
                    assert(ids@[k] == id);
                }
            }
        }
        ids
    }

    /// The points of the route: feature after feature in ascending order,
    /// and within a feature pair after pair.
    pub fn waypoints(&self) -> (points: Vec<Waypoint>)
        ensures
            points@ == track_points(self@, self.keys()),
    {
        proof {
            use_type_invariant(self);
        }
        let mut points: Vec<Waypoint> = Vec::new();
        let mut i: usize = 0;
        while i < self.entries.len()
            invariant
                i <= self.entries@.len(),
                ascending(self.entries@),
                points@ == track_points(self@, self.keys().take(i as int)),
            decreases self.entries@.len() - i,
        {
            let coords = &self.entries[i].coords;
            let ghost earlier = points@;
            let pairs: usize = coords.len() / 2;
            let mut k: usize = 0;
            while k < pairs
                invariant
                    k <= pairs,
                    pairs == coords.len() / 2,
                    points@ == earlier + points_of(coords@).take(k as int),
                decreases pairs - k,
            {
                points.push(Waypoint { longitude: coords[2 * k], latitude: coords[2 * k + 1] });
                assert(points@ =~= earlier + points_of(coords@).take(k + 1));
                k = k + 1;
            }
            proof {
                assert(points_of(coords@).take(k as int) =~= points_of(coords@));
                lemma_place_of(self.entries@, i as int);
                assert(self.keys().take(i + 1).drop_last() =~= self.keys().take(i as int));
                assert(self.keys().take(i + 1).last() == self.entries@[i as int].id);
            }
            i = i + 1;
        }
        assert(self.keys().take(i as int) =~= self.keys());
        points
    }

    /// Takes in a batch of coordinates for feature `id`. A feature seen for
    /// the first time keeps the batch as it is; for a known feature each pair
    /// of the batch is appended unless it already stands in the sequence.
    pub fn merge(&mut self, id: u64, coords: Vec<i64>)
        ensures
            final(self)@ == merge_into(old(self)@, id, coords@),
    {
        proof {
            use_type_invariant(&*self);
        }
        let mut entries: Vec<Track> = Vec::new();
        std::mem::swap(&mut self.entries, &mut entries);
        merge_entries(&mut entries, id, coords);
        self.entries = entries;
    }
}

/// The place of the first of `entries` that is not below `id`.
fn lower_bound(entries: &Vec<Track>, id: u64) -> (place: usize)
    ensures
        place <= entries@.len(),
        forall|k: int| 0 <= k < place ==> (#[trigger] entries@[k]).id < id,
        place < entries@.len() ==> entries@[place as int].id >= id,
{
    let mut place: usize = 0;
    while place < entries.len() && entries[place].id < id
        invariant
            place <= entries@.len(),
            forall|k: int| 0 <= k < place ==> (#[trigger] entries@[k]).id < id,
        decreases entries@.len() - place,
    {
        place = place + 1;
    }
    place
}

/// Merges a batch for feature `id` into `entries` and keeps their order.
fn merge_entries(entries: &mut Vec<Track>, id: u64, coords: Vec<i64>)
    requires
        ascending(old(entries)@),
    ensures
        ascending(final(entries)@),
        contents(final(entries)@) == merge_into(contents(old(entries)@), id, coords@),
{
    let place = lower_bound(entries, id);
    let ghost before = entries@;
    if place < entries.len() && entries[place].id == id {
        merge_coordinates(&mut entries[place].coords, &coords);
        proof {
            lemma_place_of(before, place as int);
            lemma_entry_changed(before, entries@, place as int);
        }
    } else {
        let entry = Track { id, coords };
        entries.insert(place, entry);
        proof {
            lemma_entry_inserted(before, entry, place as int);
        }
    }
}

/// Entries with the same features and the same coordinates hold the same.
proof fn lemma_entries_alike(before: Seq<Track>, after: Seq<Track>)
    requires
        ascending(before),
        after.len() == before.len(),
        forall|k: int|
            0 <= k < after.len() ==> (#[trigger] after[k]).id == before[k].id && after[k].coords@
                == before[k].coords@,
    ensures
        ascending(after),
        contents(after) == contents(before),
{
    assert(ascending(after)) by {
        assert forall|i: int, j: int| 0 <= i < j < after.len() implies (#[trigger] after[i]).id < (
        #[trigger] after[j]).id by {
            assert(before[i].id < before[j].id);
        }
    }
    assert forall|key: u64| #[trigger]
        contents(after).dom().contains(key) == contents(before).dom().contains(key) by {
        if contents(after).dom().contains(key) {
            assert(before[place_of(after, key)].id == key);
        }
        if contents(before).dom().contains(key) {
            assert(after[place_of(before, key)].id == key);
        }
    }
    assert forall|key: u64| #[trigger]
        contents(after).dom().contains(key) implies contents(after)[key] == contents(before)[key] by {
        let j = place_of(after, key);
        lemma_place_of(after, j);
        lemma_place_of(before, j);
    }
    assert(contents(after) =~= contents(before));
}

/// Entries of which the one at `place` got new coordinates hold what they
/// held, but for that feature.
proof fn lemma_entry_changed(before: Seq<Track>, after: Seq<Track>, place: int)
    requires
        ascending(before),
        0 <= place < before.len(),
        after.len() == before.len(),
        forall|k: int| 0 <= k < after.len() ==> (#[trigger] after[k]).id == before[k].id,
        forall|k: int|
            0 <= k < after.len() && k != place ==> (#[trigger] after[k]).coords@
                == before[k].coords@,
    ensures
        ascending(after),
        contents(after) == contents(before).insert(before[place].id, after[place].coords@),
{
    let changed = contents(before).insert(before[place].id, after[place].coords@);
    assert(ascending(after)) by {
        assert forall|i: int, j: int| 0 <= i < j < after.len() implies (#[trigger] after[i]).id < (
        #[trigger] after[j]).id by {
            assert(before[i].id < before[j].id);
        }
    }
    lemma_place_of(before, place);
    assert forall|key: u64| #[trigger]
        contents(after).dom().contains(key) == changed.dom().contains(key) by {
        if contents(after).dom().contains(key) {
            assert(before[place_of(after, key)].id == key);
        }
        if contents(before).dom().contains(key) {
            assert(after[place_of(before, key)].id == key);
        }
    }
    assert forall|key: u64| #[trigger]
        contents(after).dom().contains(key) implies contents(after)[key] == changed[key] by {
        let j = place_of(after, key);
        lemma_place_of(after, j);
        lemma_place_of(before, j);
    }
    assert(contents(after) =~= changed);
}

/// Entries with a new feature put in at its place keep their order and hold
/// what they held, and the new feature besides.
proof fn lemma_entry_inserted(before: Seq<Track>, entry: Track, place: int)
    requires
        ascending(before),
        0 <= place <= before.len(),
        forall|k: int| 0 <= k < place ==> (#[trigger] before[k]).id < entry.id,
        forall|k: int| place <= k < before.len() ==> (#[trigger] before[k]).id > entry.id,
    ensures
        ascending(before.insert(place, entry)),
        !contents(before).dom().contains(entry.id),
        contents(before.insert(place, entry)) == contents(before).insert(entry.id, entry.coords@),
{
    let after = before.insert(place, entry);
    let grown = contents(before).insert(entry.id, entry.coords@);
    assert(ascending(after)) by {
        assert forall|i: int, j: int| 0 <= i < j < after.len() implies (#[trigger] after[i]).id < (
        #[trigger] after[j]).id by {
            let bi = if i < place { i } else { i - 1 };
            let bj = if j < place { j } else { j - 1 };
            if i != place && j != place {
                assert(before[bi].id < before[bj].id);
            } else if i == place {
                assert(before[bj].id > entry.id);
            } else {
                assert(before[bi].id < entry.id);
            }
        }
    }
    if contents(before).dom().contains(entry.id) {
        let j = place_of(before, entry.id);
        assert(before[j].id == entry.id);
    }
    assert forall|key: u64| #[trigger]
        contents(after).dom().contains(key) == grown.dom().contains(key) by {
        if contents(after).dom().contains(key) {
            let j = place_of(after, key);
            if j != place {
                let bj = if j < place { j } else { j - 1 };
                assert(before[bj].id == key);
            }
        }
        if contents(before).dom().contains(key) {
            let j = place_of(before, key);
            let aj = if j < place { j } else { j + 1 };
            assert(after[aj].id == key);
        }
        if key == entry.id {
            assert(after[place].id == key);
        }
    }
    assert forall|key: u64| #[trigger]
        contents(after).dom().contains(key) implies contents(after)[key] == grown[key] by {
        let j = place_of(after, key);
        lemma_place_of(after, j);
        if j != place {
            let bj = if j < place { j } else { j - 1 };
            assert(before[bj].id == key);
            lemma_place_of(before, bj);
        }
    }
    assert(contents(after) =~= grown);
}

proof fn lemma_window_stays(shorter: Seq<i64>, longer: Seq<i64>, x: i64, y: i64)
    requires
        shorter.is_prefix_of(longer),
        has_window(shorter, x, y),
    ensures
        has_window(longer, x, y),
{
    let i = choose|i: int|
        0 <= i && i + 1 < shorter.len() && #[trigger] shorter[i] == x && shorter[i + 1] == y;
    assert(longer[i] == x && longer[i + 1] == y);
}

proof fn lemma_merge_pairs_extends(sequence: Seq<i64>, batch: Seq<i64>, count: nat)
    ensures
        sequence.is_prefix_of(merge_pairs(sequence, batch, count)),
    decreases count,
{
    if count > 0 {
        lemma_merge_pairs_extends(sequence, batch, (count - 1) as nat);
    }
}

proof fn lemma_merge_pairs_covers(sequence: Seq<i64>, batch: Seq<i64>, count: nat)
    ensures
        forall|k: int|
            0 <= k < count ==> has_window(
                merge_pairs(sequence, batch, count),
                #[trigger] batch[2 * k],
                batch[2 * k + 1],
            ),
    decreases count,
{
    if count > 0 {
        let before = merge_pairs(sequence, batch, (count - 1) as nat);
        let after = merge_pairs(sequence, batch, count);
        let x = batch[2 * (count - 1)];
        let y = batch[2 * (count - 1) + 1];
        lemma_merge_pairs_covers(sequence, batch, (count - 1) as nat);
        assert(before.is_prefix_of(after));
        assert forall|k: int| 0 <= k < count implies has_window(
            after,
            #[trigger] batch[2 * k],
            batch[2 * k + 1],
        ) by {
            if k < count - 1 {
                lemma_window_stays(before, after, batch[2 * k], batch[2 * k + 1]);
            } else if !has_window(before, x, y) {
                let at = before.len() as int;
                assert(after[at] == x && after[at + 1] == y);
            }
        }
    }
}

proof fn lemma_merge_pairs_known(sequence: Seq<i64>, batch: Seq<i64>, count: nat)
    requires
        count <= batch.len() / 2,
        all_pairs_present(sequence, batch),
    ensures
        merge_pairs(sequence, batch, count) == sequence,
    decreases count,
{
    if count > 0 {
        lemma_merge_pairs_known(sequence, batch, (count - 1) as nat);
        assert(has_window(sequence, batch[2 * (count - 1)], batch[2 * (count - 1) + 1]));
    }
}

proof fn lemma_merge_pairs_appends_once(sequence: Seq<i64>, batch: Seq<i64>, count: nat)
    ensures
        appends_new_pairs(sequence, merge_pairs(sequence, batch, count)),
    decreases count,
{
    let merged = merge_pairs(sequence, batch, count);
    let added = merged.skip(sequence.len() as int);
    lemma_merge_pairs_extends(sequence, batch, count);
    if count > 0 {
        let before = merge_pairs(sequence, batch, (count - 1) as nat);
        let earlier = before.skip(sequence.len() as int);
        let x = batch[2 * (count - 1)];
        let y = batch[2 * (count - 1) + 1];
        lemma_merge_pairs_appends_once(sequence, batch, (count - 1) as nat);
        lemma_merge_pairs_extends(sequence, batch, (count - 1) as nat);
        if !has_window(before, x, y) {
            let last = (earlier.len() / 2) as int;
            assert(added =~= earlier.push(x).push(y));
            assert(added[2 * last] == x && added[2 * last + 1] == y);
            if has_window(sequence, x, y) {
                lemma_window_stays(sequence, before, x, y);
            }
            assert forall|j: int, k: int| 0 <= j < k < added.len() / 2 implies !same_pair(
                added,
                j,
                k,
            ) by {
                if k == last && same_pair(added, j, k) {
                    let at = sequence.len() + 2 * j;
                    assert(before[at] == x && before[at + 1] == y);
                } else if k < last {
                    assert(!same_pair(earlier, j, k));
                }
            }
            assert forall|k: int| 0 <= k < added.len() / 2 implies !has_window(
                sequence,
                #[trigger] added[2 * k],
                added[2 * k + 1],
            ) by {
                if k < last {
                    assert(added[2 * k] == earlier[2 * k]);
                }
            }
        }
    } else {
        assert(added =~= Seq::<i64>::empty());
    }
}

/// A feature seen for the first time gets its batch as it is, and no other
/// feature changes.
pub proof fn lemma_merge_first_seen(route: Map<u64, Seq<i64>>, id: u64, batch: Seq<i64>)
    requires
        !route.dom().contains(id),
    ensures
        merge_into(route, id, batch)[id] == batch,
        merge_into(route, id, batch).dom() == route.dom().insert(id),
        forall|other: u64|
            other != id && route.dom().contains(other) ==> merge_into(route, id, batch)[other]
                == route[other],
{
}

/// A merge only appends: what a sequence held before the merge still stands
/// at its start.
pub proof fn lemma_merge_extends(sequence: Seq<i64>, batch: Seq<i64>)
    ensures
        sequence.is_prefix_of(merge_batch(sequence, batch)),
{
    lemma_merge_pairs_extends(sequence, batch, (batch.len() / 2) as nat);
}

/// After a merge every pair of the batch stands in the sequence.
pub proof fn lemma_merge_covers(sequence: Seq<i64>, batch: Seq<i64>)
    ensures
        all_pairs_present(merge_batch(sequence, batch), batch),
{
    lemma_merge_pairs_covers(sequence, batch, (batch.len() / 2) as nat);
}

/// What a merge appends is a run of whole pairs, none of which stood in the
/// sequence before and no two of which are the same.
pub proof fn lemma_merge_appends_new_pairs(sequence: Seq<i64>, batch: Seq<i64>)
    ensures
        appends_new_pairs(sequence, merge_batch(sequence, batch)),
{
    lemma_merge_pairs_appends_once(sequence, batch, (batch.len() / 2) as nat);
}

/// A batch whose pairs all stand in the sequence already leaves it unchanged.
pub proof fn lemma_merge_known_pairs(sequence: Seq<i64>, batch: Seq<i64>)
    requires
        all_pairs_present(sequence, batch),
    ensures
        merge_batch(sequence, batch) == sequence,
{
    lemma_merge_pairs_known(sequence, batch, (batch.len() / 2) as nat);
}

/// Merging the same batch for the same feature a second time changes
/// nothing.
pub proof fn lemma_merge_idempotent(route: Map<u64, Seq<i64>>, id: u64, batch: Seq<i64>)
    ensures
        merge_into(merge_into(route, id, batch), id, batch) == merge_into(route, id, batch),
{
    let once = merge_into(route, id, batch);
    if route.dom().contains(id) {
        lemma_merge_covers(route[id], batch);
    } else {
        assert forall|k: int| 0 <= k < batch.len() / 2 implies has_window(
            batch,
            #[trigger] batch[2 * k],
            batch[2 * k + 1],
        ) by {
            assert(batch[2 * k] == batch[2 * k] && 2 * k + 1 < batch.len());
        }
    }
    lemma_merge_known_pairs(once[id], batch);
    assert(merge_into(once, id, batch) =~= once);
}

} // verus!
