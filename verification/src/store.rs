//! The snapshot store: the schedule dataset, the spatial index over stop
//! coordinates, the reverse stop-to-routes lookup, and the refresh
//! credential. The three data resources are derived consistently from the
//! dataset; a refresh replaces all of them wholesale behind a credential
//! check, and leaves everything untouched when the credential or the
//! reload fails.

use vstd::multiset::Multiset;
use vstd::prelude::*;
use vstd::string::StrSliceExecFns;

use crate::dataset::Dataset;
use crate::dataset::LoadError;
use crate::dataset::ShapePoint;
use crate::dataset::StoreError;
use crate::dataset::Trip;
use crate::dataset::spec_find_route;
use crate::dataset::spec_find_shape;
use crate::dataset::spec_find_trip;
use crate::geom::COORD_LIMIT;
use crate::geom::Coordinate;
use crate::geom::Extent;
use crate::quadtree::QuadTree;
use crate::quadtree::lemma_find_bbox_sound;
use crate::queries::TripQuery;
use crate::reverse::clone_string_vec;
use crate::reverse::reverse_of;
use crate::reverse::route_map;
use crate::reverse::route_map_get;
use crate::reverse::build_reverse;

verus! {

/// The entries the spatial index holds for a stop collection: one entry
/// per stop that has a coordinate lying within the index extent, keyed by
/// the stop's position in the collection.
pub open spec fn index_ms(stops: Seq<crate::dataset::Stop>, ext: Extent) -> Multiset<
    (usize, Coordinate),
>
    decreases stops.len(),
{
    if stops.len() == 0 {
        Multiset::empty()
    } else {
        let rest = index_ms(stops.drop_last(), ext);
        match stops.last().coord {
            Some(c) => if ext.spec_contains(c) {
                rest.insert((((stops.len() - 1) as usize), c))
            } else {
                rest
            },
            None => rest,
        }
    }
}

/// Every index entry points at a stop of the collection.
pub proof fn lemma_index_ms_bounds(stops: Seq<crate::dataset::Stop>, ext: Extent)
    ensures
        forall|p: (usize, Coordinate)| #[trigger] index_ms(stops, ext).count(p) > 0 ==> p.0
            < stops.len(),
    decreases stops.len(),
{
    broadcast use vstd::multiset::group_multiset_axioms;

    if stops.len() > 0 {
        lemma_index_ms_bounds(stops.drop_last(), ext);
        assert forall|p: (usize, Coordinate)| #[trigger] index_ms(stops, ext).count(p) > 0 implies p
            .0 < stops.len() by {
            match stops.last().coord {
                Some(c) => {
                    if !(ext.spec_contains(c) && p == (((stops.len() - 1) as usize), c)) {
                        assert(index_ms(stops.drop_last(), ext).count(p) > 0);
                    }
                },
                None => {
                    assert(index_ms(stops.drop_last(), ext).count(p) > 0);
                },
            }
        }
    }
}

/// Build the spatial index of a stop collection over `extent`: one entry
/// per stop whose coordinate is known, skipping stops without one and
/// stops lying outside the configured extent.
pub fn build_index(stops: &Vec<crate::dataset::Stop>, extent: &Extent) -> (t: QuadTree<usize>)
    requires
        extent.wf(),
    ensures
        t.wf(),
        t.root_extent() == *extent,
        t.contents() == index_ms(stops@, *extent),
{
    broadcast use vstd::multiset::group_multiset_axioms;

    let mut t = QuadTree::<usize>::new(*extent);
    let n = stops.len();
    let mut i: usize = 0;
    proof {
        assert(stops@.take(0) =~= Seq::<crate::dataset::Stop>::empty());
    }
    while i < n
        invariant
            i <= n,
            n == stops@.len(),
            extent.wf(),
            t.wf(),
            t.root_extent() == *extent,
            t.contents() == index_ms(stops@.take(i as int), *extent),
        decreases n - i,
    {
        proof {
            assert(stops@.take(i + 1).drop_last() =~= stops@.take(i as int));
            assert(stops@.take(i + 1).last() == stops@[i as int]);
        }
        match stops[i].coord {
            Some(c) => {
                if extent.contains(&c) {
                    t.insert(&c, i);
                }
            },
            None => {},
        }
        i += 1;
    }
    proof {
        assert(stops@.take(n as int) =~= stops@);
    }
    t
}

/// Whether two strings hold the same characters. Reads every character of
/// both strings rather than stopping at the first mismatch, so the running
/// time does not reveal how much of a candidate credential was right.
fn eq_all_chars(a: &String, b: &String) -> (r: bool)
    ensures
        r == (a@ == b@),
{
    let an = a.as_str().unicode_len();
    let bn = b.as_str().unicode_len();
    if an != bn {
        proof {
            assert(a@ != b@);
        }
        return false;
    }
    let mut differs = false;
    let mut i: usize = 0;
    while i < an
        invariant
            i <= an,
            an == a@.len(),
            an == b@.len(),
            differs == !(forall|j: int| 0 <= j < i ==> a@[j] == b@[j]),
        decreases an - i,
    {
        let ca = a.as_str().get_char(i);
        let cb = b.as_str().get_char(i);
        if ca != cb {
            differs = true;
        }
        i += 1;
    }
    if differs {
        proof {
            let j = choose|j: int| 0 <= j < an && a@[j] != b@[j];
            assert(a@ != b@);
        }
    } else {
        proof {
            assert(a@ =~= b@);
        }
    }
    !differs
}

/// Whether an offered credential authorizes a refresh against the
/// configured one: a credential must be configured, and the offered one
/// must match it exactly.
pub fn credential_ok(configured: &String, offered: &String) -> (r: bool)
    ensures
        r == (configured@.len() > 0 && offered@ == configured@),
{
    if configured.as_str().unicode_len() == 0 {
        return false;
    }
    eq_all_chars(offered, configured)
}

/// A position-by-position match between index entries and labelled output
/// pairs: entry `j` names the stop whose identifier stands at position `j`
/// of the output, with the same coordinate.
pub open spec fn ids_match(
    ds: Dataset,
    pairs: Seq<(usize, Coordinate)>,
    out: Seq<(String, Coordinate)>,
) -> bool {
    &&& out.len() == pairs.len()
    &&& forall|j: int|
        0 <= j < pairs.len() ==> #[trigger] pairs[j].0 < ds.stops.len() && out[j].0@
            == ds.stops@[pairs[j].0 as int].id@ && out[j].1 == pairs[j].1
}

/// The snapshot store.
pub struct Store {
    extent: Extent,
    gtfs: Dataset,
    stops: QuadTree<usize>,
    reverse_stops: ahash::AHashMap<String, Vec<String>>,
    secret: String,
}

impl Store {
    /// The store invariant: the spatial index and the reverse lookup are
    /// exactly what the held dataset derives to.
    pub closed spec fn wf(self) -> bool {
        &&& self.extent.wf()
        &&& self.stops.wf()
        &&& self.stops.root_extent() == self.extent
        &&& self.stops.contents() == index_ms(self.gtfs.stops@, self.extent)
        &&& route_map(self.reverse_stops) == reverse_of(self.gtfs.trips@)
    }

    /// The held dataset.
    pub closed spec fn dataset(self) -> Dataset {
        self.gtfs
    }

    /// The extent the spatial index covers.
    pub closed spec fn spec_extent(self) -> Extent {
        self.extent
    }

    /// The configured refresh credential.
    pub closed spec fn secret_view(self) -> Seq<char> {
        self.secret@
    }

    /// The spatial index.
    pub closed spec fn index(self) -> QuadTree<usize> {
        self.stops
    }

    /// Build a store from a loaded dataset: derive the spatial index over
    /// `extent` and the reverse lookup, and keep the credential.
    pub fn new(gtfs: Dataset, extent: Extent, secret: &String) -> (s: Store)
        requires
            extent.wf(),
        ensures
            s.wf(),
            s.dataset() == gtfs,
            s.spec_extent() == extent,
            s.secret_view() == secret@,
    {
        let stops = build_index(&gtfs.stops, &extent);
        let reverse_stops = build_reverse(&gtfs.trips);
        Store { extent, gtfs, stops, reverse_stops, secret: secret.clone() }
    }

    /// A read handle to the dataset.
    pub fn get_gtfs(&self) -> (r: &Dataset)
        ensures
            *r == self.dataset(),
    {
        &self.gtfs
    }

    /// A read handle to the spatial index.
    pub fn get_stops(&self) -> (r: &QuadTree<usize>)
        ensures
            *r == self.index(),
            self.wf() ==> r.wf() && r.root_extent() == self.spec_extent() && r.contents()
                == index_ms(self.dataset().stops@, self.spec_extent()),
    {
        &self.stops
    }

    /// A read handle to the reverse lookup.
    pub fn get_reverse_stops(&self) -> (r: &ahash::AHashMap<String, Vec<String>>)
        ensures
            self.wf() ==> route_map(*r) == reverse_of(self.dataset().trips@),
    {
        &self.reverse_stops
    }

    /// Whether `secret` authorizes a refresh: a credential must be
    /// configured and the offered one must match it exactly.
    pub fn authorize(&self, secret: &String) -> (r: bool)
        ensures
            r == (self.secret_view().len() > 0 && secret@ == self.secret_view()),
    {
        credential_ok(&self.secret, secret)
    }

    /// Apply a refresh: when `secret` authorizes it and the reload
    /// produced a dataset, replace the dataset and both derived resources
    /// wholesale; on a missing or wrong credential, or a failed reload,
    /// change nothing and say why.
    pub fn refresh_gtfs(&mut self, secret: &String, loaded: Result<Dataset, LoadError>) -> (r:
        Result<(), StoreError>)
        requires
            old(self).wf(),
        ensures
            final(self).wf(),
            (r is Ok) == (old(self).secret_view().len() > 0 && secret@ == old(self).secret_view()
                && loaded is Ok),
            r is Err ==> *final(self) == *old(self),
            !(old(self).secret_view().len() > 0 && secret@ == old(self).secret_view()) ==> r
                == Err::<(), StoreError>(StoreError::Unauthorized),
            (old(self).secret_view().len() > 0 && secret@ == old(self).secret_view() && loaded
                is Err) ==> r == Err::<(), StoreError>(StoreError::LoadFailure),
            r is Ok ==> final(self).dataset() == loaded->Ok_0 && final(self).spec_extent() == old(
                self,
            ).spec_extent() && final(self).secret_view() == old(self).secret_view(),
    {
        if !self.authorize(secret) {
            return Err(StoreError::Unauthorized);
        }
        match loaded {
            Ok(d) => {
                let stops = build_index(&d.stops, &self.extent);
                let reverse_stops = build_reverse(&d.trips);
                self.gtfs = d;
                self.stops = stops;
                self.reverse_stops = reverse_stops;
                Ok(())
            },
            Err(_) => Err(StoreError::LoadFailure),
        }
    }

    /// The trip record a query names, or why there is none.
    pub fn trip_record(&self, query: &TripQuery) -> (r: Result<&Trip, StoreError>)
        ensures
            query.trip_id is None ==> r == Err::<&Trip, StoreError>(StoreError::MissingParameter),
            query.trip_id matches Some(id) ==> match r {
                Ok(t) => spec_find_trip(self.dataset().trips@, id@) == Some(*t),
                Err(e) => e == StoreError::NotFound && spec_find_trip(self.dataset().trips@, id@)
                    is None,
            },
    {
        let id = match query.require() {
            Ok(id) => id,
            Err(_) => {
                return Err(StoreError::MissingParameter);
            },
        };
        self.gtfs.get_trip(id)
    }

    /// The display name of the route a trip serves, with the trip's
    /// direction, or why there is none.
    pub fn trip_info(&self, query: &TripQuery) -> (r: Result<(String, Option<u32>), StoreError>)
        ensures
            query.trip_id is None ==> (r matches Err(e) && e == StoreError::MissingParameter),
            query.trip_id matches Some(id) ==> match r {
                Ok(info) => spec_find_trip(self.dataset().trips@, id@) matches Some(t)
                    && spec_find_route(self.dataset().routes@, t.route_id@) matches Some(rt)
                    && info.0@ == rt.long_name@ && info.1 == t.direction_id,
                Err(e) => e == StoreError::NotFound && (spec_find_trip(self.dataset().trips@, id@)
                    is None || (spec_find_trip(self.dataset().trips@, id@) matches Some(t)
                    && spec_find_route(self.dataset().routes@, t.route_id@) is None)),
            },
    {
        let id = match query.require() {
            Ok(id) => id,
            Err(_) => {
                return Err(StoreError::MissingParameter);
            },
        };
        let trip = match self.gtfs.get_trip(id) {
            Ok(t) => t,
            Err(_) => {
                return Err(StoreError::NotFound);
            },
        };
        let route = match self.gtfs.get_route(&trip.route_id) {
            Ok(rt) => rt,
            Err(_) => {
                return Err(StoreError::NotFound);
            },
        };
        Ok((route.long_name.clone(), trip.direction_id))
    }

    /// The ordered points of the shape a trip references, or why there are
    /// none: the trip is unknown, has no shape, or names an unknown shape.
    pub fn trip_shape(&self, query: &TripQuery) -> (r: Result<Vec<ShapePoint>, StoreError>)
        ensures
            query.trip_id is None ==> (r matches Err(e) && e == StoreError::MissingParameter),
            query.trip_id matches Some(id) ==> match r {
                Ok(points) => spec_find_trip(self.dataset().trips@, id@) matches Some(t)
                    && t.shape_id matches Some(sid) && spec_find_shape(
                    self.dataset().shapes@,
                    sid@,
                ) matches Some(sh) && points@ == sh.points@,
                Err(e) => e == StoreError::NotFound && (spec_find_trip(self.dataset().trips@, id@)
                    is None || (spec_find_trip(self.dataset().trips@, id@) matches Some(t) && (
                t.shape_id is None || (t.shape_id matches Some(sid) && spec_find_shape(
                    self.dataset().shapes@,
                    sid@,
                ) is None)))),
            },
    {
        let id = match query.require() {
            Ok(id) => id,
            Err(_) => {
                return Err(StoreError::MissingParameter);
            },
        };
        let trip = match self.gtfs.get_trip(id) {
            Ok(t) => t,
            Err(_) => {
                return Err(StoreError::NotFound);
            },
        };
        let shape_id = match &trip.shape_id {
            Some(sid) => sid,
            None => {
                return Err(StoreError::NotFound);
            },
        };
        let shape = match self.gtfs.get_shape(shape_id) {
            Ok(sh) => sh,
            Err(_) => {
                return Err(StoreError::NotFound);
            },
        };
        let n = shape.points.len();
        let mut points: Vec<ShapePoint> = Vec::new();
        let mut i: usize = 0;
        while i < n
            invariant
                i <= n,
                n == shape.points@.len(),
                points@ =~= shape.points@.take(i as int),
            decreases n - i,
        {
            points.push(shape.points[i]);
            proof {
                assert(points@ =~= shape.points@.take(i + 1));
            }
            i += 1;
        }
        proof {
            assert(shape.points@.take(n as int) =~= shape.points@);
        }
        Ok(points)
    }

    /// The stored route identifiers of a stop, or `NotFound` when the
    /// reverse lookup has no entry for it.
    pub fn stop_routes(&self, stop_id: &String) -> (r: Result<Vec<String>, StoreError>)
        requires
            self.wf(),
        ensures
            match r {
                Ok(v) => reverse_of(self.dataset().trips@).dom().contains(stop_id@)
                    && v.deep_view() == reverse_of(self.dataset().trips@)[stop_id@],
                Err(e) => e == StoreError::NotFound && !reverse_of(
                    self.dataset().trips@,
                ).dom().contains(stop_id@),
            },
    {
        match route_map_get(&self.reverse_stops, stop_id) {
            Some(v) => {
                let out = clone_string_vec(v);
                proof {
                    assert(out.deep_view() =~= v.deep_view());
                }
                Ok(out)
            },
            None => Err(StoreError::NotFound),
        }
    }

    /// The stops whose index region intersects the query rectangle, as
    /// `(stop identifier, coordinate)` pairs, or `InvalidExtent` for a
    /// malformed rectangle. The index over-returns near the query
    /// boundary: a stop is included whenever the leaf region holding it
    /// intersects the rectangle.
    pub fn stops_in_bbox(&self, west: i64, south: i64, east: i64, north: i64) -> (r: Result<
        Vec<(String, Coordinate)>,
        StoreError,
    >)
        requires
            self.wf(),
        ensures
            (r is Ok) == (-COORD_LIMIT <= west <= east <= COORD_LIMIT && -COORD_LIMIT <= south
                <= north <= COORD_LIMIT),
            match r {
                Ok(out) => exists|pairs: Seq<(usize, Coordinate)>|
                    #[trigger] pairs.to_multiset() == self.index().found(
                        Extent { x_low: west, x_high: east, y_low: south, y_high: north },
                    ) && ids_match(self.dataset(), pairs, out@),
                Err(e) => e == StoreError::InvalidExtent,
            },
    {
        broadcast use vstd::seq_lib::group_to_multiset_ensures;
        broadcast use vstd::multiset::group_multiset_axioms;

        if !(-COORD_LIMIT <= west && west <= east && east <= COORD_LIMIT && -COORD_LIMIT <= south
            && south <= north && north <= COORD_LIMIT) {
            return Err(StoreError::InvalidExtent);
        }
        let ext = Extent::new(west, south, east, north);
        let pairs = self.stops.find_bbox(&ext);
        proof {
            lemma_find_bbox_sound(self.stops, ext);
            lemma_index_ms_bounds(self.gtfs.stops@, self.extent);
        }
        let n = pairs.len();
        let mut out: Vec<(String, Coordinate)> = Vec::new();
        let mut i: usize = 0;
        while i < n
            invariant
                self.wf(),
                i <= n,
                n == pairs@.len(),
                pairs@.to_multiset() == self.index().found(
                    Extent { x_low: west, x_high: east, y_low: south, y_high: north },
                ),
                forall|p: (usize, Coordinate)| #[trigger] pairs@.to_multiset().count(p) > 0 ==> p.0
                    < self.dataset().stops.len(),
                out@.len() == i,
                forall|j: int|
                    0 <= j < i ==> #[trigger] pairs@[j].0 < self.dataset().stops.len()
                        && out@[j].0@ == self.dataset().stops@[pairs@[j].0 as int].id@ && out@[j].1
                        == pairs@[j].1,
            decreases n - i,
        {
            proof {
                broadcast use vstd::seq_lib::group_to_multiset_ensures;

                assert(pairs@.contains(pairs@[i as int]));
                assert(pairs@.to_multiset().count(pairs@[i as int]) > 0);
            }
            let idx = pairs[i].0;
            let c = pairs[i].1;
            out.push((self.gtfs.stops[idx].id.clone(), c));
            i += 1;
        }
        proof {
            assert(ids_match(self.dataset(), pairs@, out@));
        }
        Ok(out)
    }
}

} // verus!
