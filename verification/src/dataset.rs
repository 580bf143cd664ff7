//! A plain-value model of a static transit schedule dataset: stops, trips,
//! routes and shapes, with lookup by identifier. The loader that produces a
//! dataset from raw schedule files is an external collaborator; the store
//! receives the loaded dataset as a value.

use vstd::prelude::*;

use crate::geom::Coordinate;

verus! {

/// The error taxonomy of the store and its queries.
#[derive(Clone, Copy, Debug, PartialEq, Eq, Structural)]
pub enum StoreError {
    /// A trip, route, shape or stop identifier is unknown.
    NotFound,
    /// A malformed query rectangle.
    InvalidExtent,
    /// A missing or incorrect refresh credential.
    Unauthorized,
    /// The dataset failed to load.
    LoadFailure,
    /// A required query parameter is absent.
    MissingParameter,
}

/// What the external loader reports when a dataset cannot be produced.
pub struct LoadError {
    pub message: String,
}

/// A stop: an identifier and, when both latitude and longitude are known,
/// a planar coordinate.
pub struct Stop {
    pub id: String,
    pub coord: Option<Coordinate>,
}

/// A trip: its identifier, the route it serves, the ordered stops it
/// visits, and an optional shape reference and direction.
pub struct Trip {
    pub id: String,
    pub route_id: String,
    pub stop_ids: Vec<String>,
    pub shape_id: Option<String>,
    pub direction_id: Option<u32>,
}

/// A route: its identifier and display name.
pub struct Route {
    pub id: String,
    pub long_name: String,
}

/// One point of a shape's ordered polyline.
#[derive(Clone, Copy, Debug, PartialEq, Eq, Structural)]
pub struct ShapePoint {
    pub coord: Coordinate,
    pub sequence: usize,
}

/// A shape: an identifier and its ordered sequence of points.
pub struct Shape {
    pub id: String,
    pub points: Vec<ShapePoint>,
}

/// A loaded schedule dataset.
pub struct Dataset {
    pub stops: Vec<Stop>,
    pub trips: Vec<Trip>,
    pub routes: Vec<Route>,
    pub shapes: Vec<Shape>,
}

/// The first trip carrying `id`, if any.
pub open spec fn spec_find_trip(s: Seq<Trip>, id: Seq<char>) -> Option<Trip>
    decreases s.len(),
{
    if s.len() == 0 {
        None
    } else if s[0].id@ == id {
        Some(s[0])
    } else {
        spec_find_trip(s.drop_first(), id)
    }
}

/// The first route carrying `id`, if any.
pub open spec fn spec_find_route(s: Seq<Route>, id: Seq<char>) -> Option<Route>
    decreases s.len(),
{
    if s.len() == 0 {
        None
    } else if s[0].id@ == id {
        Some(s[0])
    } else {
        spec_find_route(s.drop_first(), id)
    }
}

/// The first shape carrying `id`, if any.
pub open spec fn spec_find_shape(s: Seq<Shape>, id: Seq<char>) -> Option<Shape>
    decreases s.len(),
{
    if s.len() == 0 {
        None
    } else if s[0].id@ == id {
        Some(s[0])
    } else {
        spec_find_shape(s.drop_first(), id)
    }
}

/// A lookup succeeds exactly when some entry carries the identifier, and
/// what it returns carries it.
pub proof fn lemma_find_trip_spec(s: Seq<Trip>, id: Seq<char>)
    ensures
        (spec_find_trip(s, id) is Some) <==> exists|i: int| 0 <= i < s.len() && s[i].id@ == id,
        spec_find_trip(s, id) matches Some(t) ==> t.id@ == id && s.contains(t),
    decreases s.len(),
{
    if s.len() > 0 {
        lemma_find_trip_spec(s.drop_first(), id);
        if s[0].id@ != id {
            if spec_find_trip(s, id) is Some {
                let j = choose|j: int|
                    0 <= j < s.drop_first().len() && s.drop_first()[j].id@ == id;
                assert(s[j + 1].id@ == id);
                {
                    let t = spec_find_trip(s, id)->Some_0;
                    assert(s.drop_first().contains(t));
                    let k = choose|k: int|
                        0 <= k < s.drop_first().len() && s.drop_first()[k] == t;
                    assert(s[k + 1] == t);
                }
            } else {
                assert forall|i: int| 0 <= i < s.len() implies s[i].id@ != id by {
                    if i > 0 {
                        assert(s.drop_first()[i - 1] == s[i]);
                    }
                }
            }
        } else {
            assert(s.contains(s[0]));
        }
    }
}

/// See `lemma_find_trip_spec`.
pub proof fn lemma_find_route_spec(s: Seq<Route>, id: Seq<char>)
    ensures
        (spec_find_route(s, id) is Some) <==> exists|i: int| 0 <= i < s.len() && s[i].id@ == id,
        spec_find_route(s, id) matches Some(t) ==> t.id@ == id && s.contains(t),
    decreases s.len(),
{
    if s.len() > 0 {
        lemma_find_route_spec(s.drop_first(), id);
        if s[0].id@ != id {
            if spec_find_route(s, id) is Some {
                let j = choose|j: int|
                    0 <= j < s.drop_first().len() && s.drop_first()[j].id@ == id;
                assert(s[j + 1].id@ == id);
                {
                    let t = spec_find_route(s, id)->Some_0;
                    let k = choose|k: int|
                        0 <= k < s.drop_first().len() && s.drop_first()[k] == t;
                    assert(s[k + 1] == t);
                }
            } else {
                assert forall|i: int| 0 <= i < s.len() implies s[i].id@ != id by {
                    if i > 0 {
                        assert(s.drop_first()[i - 1] == s[i]);
                    }
                }
            }
        } else {
            assert(s.contains(s[0]));
        }
    }
}

/// See `lemma_find_trip_spec`.
pub proof fn lemma_find_shape_spec(s: Seq<Shape>, id: Seq<char>)
    ensures
        (spec_find_shape(s, id) is Some) <==> exists|i: int| 0 <= i < s.len() && s[i].id@ == id,
        spec_find_shape(s, id) matches Some(t) ==> t.id@ == id && s.contains(t),
    decreases s.len(),
{
    if s.len() > 0 {
        lemma_find_shape_spec(s.drop_first(), id);
        if s[0].id@ != id {
            if spec_find_shape(s, id) is Some {
                let j = choose|j: int|
                    0 <= j < s.drop_first().len() && s.drop_first()[j].id@ == id;
                assert(s[j + 1].id@ == id);
                {
                    let t = spec_find_shape(s, id)->Some_0;
                    let k = choose|k: int|
                        0 <= k < s.drop_first().len() && s.drop_first()[k] == t;
                    assert(s[k + 1] == t);
                }
            } else {
                assert forall|i: int| 0 <= i < s.len() implies s[i].id@ != id by {
                    if i > 0 {
                        assert(s.drop_first()[i - 1] == s[i]);
                    }
                }
            }
        } else {
            assert(s.contains(s[0]));
        }
    }
}

impl Dataset {
    /// The trip record carrying `trip_id`, or `NotFound`.
    pub fn get_trip(&self, trip_id: &String) -> (r: Result<&Trip, StoreError>)
        ensures
            match r {
                Ok(t) => spec_find_trip(self.trips@, trip_id@) == Some(*t),
                Err(e) => e == StoreError::NotFound && spec_find_trip(self.trips@, trip_id@)
                    is None,
            },
    {
        let n = self.trips.len();
        let mut i: usize = 0;
        proof {
            assert(self.trips@.skip(0) =~= self.trips@);
        }
        while i < n
            invariant
                i <= n,
                n == self.trips@.len(),
                spec_find_trip(self.trips@, trip_id@) == spec_find_trip(
                    self.trips@.skip(i as int),
                    trip_id@,
                ),
            decreases n - i,
        {
            if self.trips[i].id == *trip_id {
                proof {
                    assert(self.trips@.skip(i as int)[0] == self.trips@[i as int]);
                }
                return Ok(&self.trips[i]);
            }
            proof {
                assert(self.trips@.skip(i as int).drop_first() =~= self.trips@.skip(i + 1));
                assert(self.trips@.skip(i as int)[0] == self.trips@[i as int]);
            }
            i += 1;
        }
        proof {
            assert(self.trips@.skip(n as int) =~= Seq::<Trip>::empty());
        }
        Err(StoreError::NotFound)
    }

    /// The route record carrying `route_id`, or `NotFound`.
    pub fn get_route(&self, route_id: &String) -> (r: Result<&Route, StoreError>)
        ensures
            match r {
                Ok(t) => spec_find_route(self.routes@, route_id@) == Some(*t),
                Err(e) => e == StoreError::NotFound && spec_find_route(self.routes@, route_id@)
                    is None,
            },
    {
        let n = self.routes.len();
        let mut i: usize = 0;
        proof {
            assert(self.routes@.skip(0) =~= self.routes@);
        }
        while i < n
            invariant
                i <= n,
                n == self.routes@.len(),
                spec_find_route(self.routes@, route_id@) == spec_find_route(
                    self.routes@.skip(i as int),
                    route_id@,
                ),
            decreases n - i,
        {
            if self.routes[i].id == *route_id {
                proof {
                    assert(self.routes@.skip(i as int)[0] == self.routes@[i as int]);
                }
                return Ok(&self.routes[i]);
            }
            proof {
                assert(self.routes@.skip(i as int).drop_first() =~= self.routes@.skip(i + 1));
                assert(self.routes@.skip(i as int)[0] == self.routes@[i as int]);
            }
            i += 1;
        }
        proof {
            assert(self.routes@.skip(n as int) =~= Seq::<Route>::empty());
        }
        Err(StoreError::NotFound)
    }

    /// The shape record carrying `shape_id`, or `NotFound`.
    pub fn get_shape(&self, shape_id: &String) -> (r: Result<&Shape, StoreError>)
        ensures
            match r {
                Ok(t) => spec_find_shape(self.shapes@, shape_id@) == Some(*t),
                Err(e) => e == StoreError::NotFound && spec_find_shape(self.shapes@, shape_id@)
                    is None,
            },
    {
        let n = self.shapes.len();
        let mut i: usize = 0;
        proof {
            assert(self.shapes@.skip(0) =~= self.shapes@);
        }
        while i < n
            invariant
                i <= n,
                n == self.shapes@.len(),
                spec_find_shape(self.shapes@, shape_id@) == spec_find_shape(
                    self.shapes@.skip(i as int),
                    shape_id@,
                ),
            decreases n - i,
        {
            if self.shapes[i].id == *shape_id {
                proof {
                    assert(self.shapes@.skip(i as int)[0] == self.shapes@[i as int]);
                }
                return Ok(&self.shapes[i]);
            }
            proof {
                assert(self.shapes@.skip(i as int).drop_first() =~= self.shapes@.skip(i + 1));
                assert(self.shapes@.skip(i as int)[0] == self.shapes@[i as int]);
            }
            i += 1;
        }
        proof {
            assert(self.shapes@.skip(n as int) =~= Seq::<Shape>::empty());
        }
        Err(StoreError::NotFound)
    }
}

} // verus!
