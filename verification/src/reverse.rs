//! The reverse lookup: a derived mapping from stop identifier to the route
//! identifiers serving it, in first-visit order and deduplicated per stop.
//! The mapping is held in a hash map of the `ahash` crate behind a small
//! trusted boundary; everything built on top of it is verified against the
//! named contents of that map.

use vstd::prelude::*;

use crate::dataset::Trip;

verus! {

#[verifier::external_type_specification]
#[verifier::external_body]
#[verifier::reject_recursive_types(K)]
#[verifier::reject_recursive_types(V)]
#[verifier::reject_recursive_types(S)]
pub struct ExAHashMap<K, V, S>(ahash::AHashMap<K, V, S>);

#[verifier::external_type_specification]
#[verifier::external_body]
pub struct ExRandomState(ahash::RandomState);

/// The contents of a reverse-lookup hash map: stop identifier to the
/// ordered route identifiers stored for it.
pub uninterp spec fn route_map(m: ahash::AHashMap<String, Vec<String>>) -> Map<
    Seq<char>,
    Seq<Seq<char>>,
>;

/// The empty reverse lookup.
pub open spec fn empty_routes() -> Map<Seq<char>, Seq<Seq<char>>> {
    Map::empty()
}

/// Relies on ahash's `AHashMap::new`: a freshly created map is empty.
#[verifier::external_body]
fn route_map_new() -> (r: ahash::AHashMap<String, Vec<String>>)
    ensures
        route_map(r) == empty_routes(),
{
    ahash::AHashMap::new()
}

/// Relies on ahash's `AHashMap::get` (the standard hash map's `get`): the
/// value stored under the key, if the key is present.
#[verifier::external_body]
pub(crate) fn route_map_get<'a>(m: &'a ahash::AHashMap<String, Vec<String>>, k: &String) -> (r: Option<
    &'a Vec<String>,
>)
    ensures
        match r {
            Some(v) => route_map(*m).dom().contains(k@) && v.deep_view() == route_map(*m)[k@],
            None => !route_map(*m).dom().contains(k@),
        },
{
    m.get(k)
}

/// Relies on ahash's `AHashMap::insert` (the standard hash map's
/// `insert`): the map afterwards stores `v` under `k` and is otherwise
/// unchanged.
#[verifier::external_body]
fn route_map_insert(m: &mut ahash::AHashMap<String, Vec<String>>, k: String, v: Vec<String>)
    ensures
        route_map(*final(m)) == route_map(*old(m)).insert(k@, v.deep_view()),
{
    m.insert(k, v);
}

/// One route observed at one stop: a new stop opens a list with that
/// route; a known route is not repeated; an unknown route is appended.
pub open spec fn rev_add(
    m: Map<Seq<char>, Seq<Seq<char>>>,
    route: Seq<char>,
    stop: Seq<char>,
) -> Map<Seq<char>, Seq<Seq<char>>> {
    if !m.dom().contains(stop) {
        m.insert(stop, seq![route])
    } else if m[stop].contains(route) {
        m
    } else {
        m.insert(stop, m[stop].push(route))
    }
}

/// One trip observed: its route is recorded at every stop it visits, in
/// visiting order.
pub open spec fn rev_add_trip(
    m: Map<Seq<char>, Seq<Seq<char>>>,
    route: Seq<char>,
    stops: Seq<Seq<char>>,
) -> Map<Seq<char>, Seq<Seq<char>>>
    decreases stops.len(),
{
    if stops.len() == 0 {
        m
    } else {
        rev_add_trip(rev_add(m, route, stops[0]), route, stops.drop_first())
    }
}

/// All trips observed in order, starting from `m`.
pub open spec fn rev_from(m: Map<Seq<char>, Seq<Seq<char>>>, trips: Seq<Trip>) -> Map<
    Seq<char>,
    Seq<Seq<char>>,
>
    decreases trips.len(),
{
    if trips.len() == 0 {
        m
    } else {
        rev_from(
            rev_add_trip(m, trips[0].route_id@, trips[0].stop_ids.deep_view()),
            trips.drop_first(),
        )
    }
}

/// The reverse lookup derived from a trip collection.
pub open spec fn reverse_of(trips: Seq<Trip>) -> Map<Seq<char>, Seq<Seq<char>>> {
    rev_from(empty_routes(), trips)
}

/// Whether `x` occurs in the vector, by string contents.
fn vec_contains_string(v: &Vec<String>, x: &String) -> (r: bool)
    ensures
        r == v.deep_view().contains(x@),
{
    let n = v.len();
    let mut i: usize = 0;
    while i < n
        invariant
            i <= n,
            n == v@.len(),
            forall|j: int| 0 <= j < i ==> v.deep_view()[j] != x@,
        decreases n - i,
    {
        if v[i] == *x {
            proof {
                assert(v.deep_view()[i as int] == x@);
            }
            return true;
        }
        i += 1;
    }
    false
}

/// A copy of a vector of strings, equal entry by entry.
pub(crate) fn clone_string_vec(v: &Vec<String>) -> (r: Vec<String>)
    ensures
        r@ == v@,
{
    let n = v.len();
    let mut out: Vec<String> = Vec::new();
    let mut i: usize = 0;
    while i < n
        invariant
            i <= n,
            n == v@.len(),
            out@ =~= v@.take(i as int),
        decreases n - i,
    {
        out.push(v[i].clone());
        proof {
            assert(out@ =~= v@.take(i + 1));
        }
        i += 1;
    }
    proof {
        assert(v@.take(n as int) =~= v@);
    }
    out
}

/// Build the reverse lookup of a trip collection: for every trip, its
/// route identifier is collected into the list of every stop the trip's
/// stop sequence visits, deduplicated per stop.
pub fn build_reverse(trips: &Vec<Trip>) -> (m: ahash::AHashMap<String, Vec<String>>)
    ensures
        route_map(m) == reverse_of(trips@),
{
    let mut m = route_map_new();
    let n = trips.len();
    let mut i: usize = 0;
    proof {
        assert(trips@.skip(0) =~= trips@);
    }
    while i < n
        invariant
            i <= n,
            n == trips@.len(),
            rev_from(route_map(m), trips@.skip(i as int)) == reverse_of(trips@),
        decreases n - i,
    {
        let trip = &trips[i];
        let ghost m0 = route_map(m);
        let stops_n = trip.stop_ids.len();
        let mut j: usize = 0;
        proof {
            assert(trip.stop_ids.deep_view().skip(0) =~= trip.stop_ids.deep_view());
        }
        while j < stops_n
            invariant
                j <= stops_n,
                stops_n == trip.stop_ids@.len(),
                trip == &trips@[i as int],
                trip.stop_ids.deep_view().len() == trip.stop_ids@.len(),
                rev_add_trip(
                    route_map(m),
                    trip.route_id@,
                    trip.stop_ids.deep_view().skip(j as int),
                ) == rev_add_trip(m0, trip.route_id@, trip.stop_ids.deep_view()),
            decreases stops_n - j,
        {
            let sid: &String = &trip.stop_ids[j];
            let ghost m_before = route_map(m);
            let ghost stops_deep = trip.stop_ids.deep_view();
            proof {
                assert(stops_deep[j as int] == sid@);
                assert(stops_deep.skip(j as int)[0] == stops_deep[j as int]);
                assert(stops_deep.skip(j as int).drop_first() =~= stops_deep.skip(j + 1));
            }
            match route_map_get(&m, sid) {
                None => {
                    let mut v: Vec<String> = Vec::new();
                    v.push(trip.route_id.clone());
                    proof {
                        assert(v.deep_view() =~= seq![trip.route_id@]);
                    }
                    route_map_insert(&mut m, sid.clone(), v);
                    proof {
                        assert(route_map(m) == rev_add(m_before, trip.route_id@, sid@));
                    }
                },
                Some(cur) => {
                    if vec_contains_string(cur, &trip.route_id) {
                        proof {
                            assert(route_map(m) == rev_add(m_before, trip.route_id@, sid@));
                        }
                    } else {
                        let mut nv = clone_string_vec(cur);
                        nv.push(trip.route_id.clone());
                        proof {
                            assert(nv.deep_view() =~= m_before[sid@].push(trip.route_id@));
                        }
                        route_map_insert(&mut m, sid.clone(), nv);
                        proof {
                            assert(route_map(m) == rev_add(m_before, trip.route_id@, sid@));
                        }
                    }
                },
            }
            j += 1;
        }
        proof {
            assert(trip.stop_ids.deep_view().skip(stops_n as int) =~= Seq::<Seq<char>>::empty());
            assert(route_map(m) == rev_add_trip(m0, trip.route_id@, trip.stop_ids.deep_view()));
            assert(trips@.skip(i as int)[0] == trips@[i as int]);
            assert(trips@.skip(i as int).drop_first() =~= trips@.skip(i + 1));
        }
        i += 1;
    }
    proof {
        assert(trips@.skip(n as int) =~= Seq::<Trip>::empty());
    }
    m
}

/// No duplicate entries in a route list.
pub open spec fn no_dup(s: Seq<Seq<char>>) -> bool {
    forall|i: int, j: int| 0 <= i < j < s.len() ==> s[i] != s[j]
}

/// All route lists of a map are free of duplicates.
pub open spec fn all_no_dup(m: Map<Seq<char>, Seq<Seq<char>>>) -> bool {
    forall|k: Seq<char>| #[trigger] m.dom().contains(k) ==> no_dup(m[k])
}

proof fn lemma_rev_add_no_dup(m: Map<Seq<char>, Seq<Seq<char>>>, route: Seq<char>, stop: Seq<char>)
    requires
        all_no_dup(m),
    ensures
        all_no_dup(rev_add(m, route, stop)),
{
    let m2 = rev_add(m, route, stop);
    assert forall|k: Seq<char>| #[trigger] m2.dom().contains(k) implies no_dup(m2[k]) by {
        if !m.dom().contains(stop) {
            if k == stop {
                assert(m2[k] == seq![route]);
            }
        } else if !m[stop].contains(route) {
            if k == stop {
                let s = m[stop];
                assert(m2[k] == s.push(route));
                assert forall|i: int, j: int| 0 <= i < j < s.push(route).len() implies s.push(
                    route,
                )[i] != s.push(route)[j] by {
                    if j == s.len() {
                        assert(!s.contains(route));
                        assert(s.push(route)[i] == s[i]);
                    }
                }
            }
        }
    }
}

proof fn lemma_rev_add_trip_no_dup(
    m: Map<Seq<char>, Seq<Seq<char>>>,
    route: Seq<char>,
    stops: Seq<Seq<char>>,
)
    requires
        all_no_dup(m),
    ensures
        all_no_dup(rev_add_trip(m, route, stops)),
    decreases stops.len(),
{
    if stops.len() > 0 {
        lemma_rev_add_no_dup(m, route, stops[0]);
        lemma_rev_add_trip_no_dup(rev_add(m, route, stops[0]), route, stops.drop_first());
    }
}

proof fn lemma_rev_from_no_dup(m: Map<Seq<char>, Seq<Seq<char>>>, trips: Seq<Trip>)
    requires
        all_no_dup(m),
    ensures
        all_no_dup(rev_from(m, trips)),
    decreases trips.len(),
{
    if trips.len() > 0 {
        lemma_rev_add_trip_no_dup(m, trips[0].route_id@, trips[0].stop_ids.deep_view());
        lemma_rev_from_no_dup(
            rev_add_trip(m, trips[0].route_id@, trips[0].stop_ids.deep_view()),
            trips.drop_first(),
        );
    }
}

/// The dedup law: however often a trip revisits a stop, and however many
/// trips serve it, no stop's route list ever repeats a route identifier.
pub proof fn lemma_reverse_no_dup(trips: Seq<Trip>)
    ensures
        all_no_dup(reverse_of(trips)),
{
    lemma_rev_from_no_dup(empty_routes(), trips);
}

/// Some trip on route `route` visits `stop`.
pub open spec fn serves(trips: Seq<Trip>, stop: Seq<char>, route: Seq<char>) -> bool {
    exists|i: int|
        0 <= i < trips.len() && trips[i].route_id@ == route && trips[i].stop_ids.deep_view(
        ).contains(stop)
}

/// Some trip visits `stop`.
pub open spec fn visited(trips: Seq<Trip>, stop: Seq<char>) -> bool {
    exists|i: int| 0 <= i < trips.len() && trips[i].stop_ids.deep_view().contains(stop)
}

proof fn lemma_push_contains(s: Seq<Seq<char>>, v: Seq<char>, r: Seq<char>)
    ensures
        s.push(v).contains(r) <==> (s.contains(r) || r == v),
{
    if s.push(v).contains(r) {
        let i = choose|i: int| 0 <= i < s.push(v).len() && s.push(v)[i] == r;
        if i < s.len() {
            assert(s[i] == r);
        }
    }
    if s.contains(r) {
        let i = choose|i: int| 0 <= i < s.len() && s[i] == r;
        assert(s.push(v)[i] == r);
    }
    if r == v {
        assert(s.push(v)[s.len() as int] == r);
    }
}

proof fn lemma_rev_add_members(m: Map<Seq<char>, Seq<Seq<char>>>, route: Seq<char>, stop: Seq<char>)
    ensures
        forall|k: Seq<char>| #[trigger]
            rev_add(m, route, stop).dom().contains(k) <==> (m.dom().contains(k) || k == stop),
        forall|k: Seq<char>, r: Seq<char>|
            rev_add(m, route, stop).dom().contains(k) ==> (#[trigger] rev_add(m, route, stop)[k].contains(r) <==> ((m.dom().contains(k) && m[k].contains(r)) || (k == stop && r
                == route))),
{
    let m2 = rev_add(m, route, stop);
    assert forall|k: Seq<char>, r: Seq<char>| m2.dom().contains(k) implies (#[trigger] m2[k].contains(r) <==> ((m.dom().contains(k) && m[k].contains(r)) || (k == stop && r
        == route))) by {
        if !m.dom().contains(stop) {
            if k == stop {
                assert(m2[k] == seq![route]);
                if m2[k].contains(r) {
                    let i = choose|i: int| 0 <= i < m2[k].len() && m2[k][i] == r;
                    assert(r == route);
                }
                assert(m2[k][0] == route);
            }
        } else if m[stop].contains(route) {
        } else {
            if k == stop {
                assert(m2[k] == m[stop].push(route));
                lemma_push_contains(m[stop], route, r);
            }
        }
    }
}

proof fn lemma_rev_add_trip_members(
    m: Map<Seq<char>, Seq<Seq<char>>>,
    route: Seq<char>,
    stops: Seq<Seq<char>>,
)
    ensures
        forall|k: Seq<char>| #[trigger]
            rev_add_trip(m, route, stops).dom().contains(k) <==> (m.dom().contains(k)
                || stops.contains(k)),
        forall|k: Seq<char>, r: Seq<char>|
            rev_add_trip(m, route, stops).dom().contains(k) ==> (#[trigger] rev_add_trip(
                m,
                route,
                stops,
            )[k].contains(r) <==> ((m.dom().contains(k) && m[k].contains(r)) || (stops.contains(k)
                && r == route))),
    decreases stops.len(),
{
    if stops.len() == 0 {
        assert(forall|k: Seq<char>| !stops.contains(k));
    } else {
        let m1 = rev_add(m, route, stops[0]);
        lemma_rev_add_members(m, route, stops[0]);
        lemma_rev_add_trip_members(m1, route, stops.drop_first());
        assert forall|k: Seq<char>|
            #[trigger] stops.contains(k) implies (k == stops[0] || stops.drop_first().contains(
            k,
        )) by {
            let i = choose|i: int| 0 <= i < stops.len() && stops[i] == k;
            if i > 0 {
                assert(stops.drop_first()[i - 1] == k);
            }
        }
        assert forall|k: Seq<char>|
            stops.drop_first().contains(k) implies #[trigger] stops.contains(k) by {
            let i = choose|i: int|
                0 <= i < stops.drop_first().len() && stops.drop_first()[i] == k;
            assert(stops[i + 1] == k);
        }
        assert(stops.contains(stops[0]));
        assert forall|k: Seq<char>| #[trigger]
            rev_add_trip(m, route, stops).dom().contains(k) <==> (m.dom().contains(k)
                || stops.contains(k)) by {
            assert(rev_add_trip(m1, route, stops.drop_first()).dom().contains(k) <==> (
            m1.dom().contains(k) || stops.drop_first().contains(k)));
            assert(rev_add(m, route, stops[0]).dom().contains(k) <==> (m.dom().contains(k) || k
                == stops[0]));
        }
        assert forall|k: Seq<char>, r: Seq<char>|
            rev_add_trip(m, route, stops).dom().contains(k) implies (#[trigger] rev_add_trip(
            m,
            route,
            stops,
        )[k].contains(r) <==> ((m.dom().contains(k) && m[k].contains(r)) || (stops.contains(k) && r
            == route))) by {
            assert(rev_add_trip(m1, route, stops.drop_first()).dom().contains(k));
            assert(rev_add_trip(m1, route, stops.drop_first())[k].contains(r) <==> ((
            m1.dom().contains(k) && m1[k].contains(r)) || (stops.drop_first().contains(k) && r
                == route)));
            assert(rev_add(m, route, stops[0]).dom().contains(k) <==> (m.dom().contains(k) || k
                == stops[0]));
            if m1.dom().contains(k) {
                assert(rev_add(m, route, stops[0])[k].contains(r) <==> ((m.dom().contains(k)
                    && m[k].contains(r)) || (k == stops[0] && r == route)));
            }
        }
    }
}

proof fn lemma_rev_from_members(m: Map<Seq<char>, Seq<Seq<char>>>, trips: Seq<Trip>)
    ensures
        forall|k: Seq<char>| #[trigger]
            rev_from(m, trips).dom().contains(k) <==> (m.dom().contains(k) || visited(trips, k)),
        forall|k: Seq<char>, r: Seq<char>|
            rev_from(m, trips).dom().contains(k) ==> (#[trigger] rev_from(m, trips)[k].contains(r)
                <==> ((m.dom().contains(k) && m[k].contains(r)) || serves(trips, k, r))),
    decreases trips.len(),
{
    if trips.len() == 0 {
        assert forall|k: Seq<char>, r: Seq<char>| true implies !serves(trips, k, r) && !visited(
            trips,
            k,
        ) by {}
    } else {
        let first = trips[0];
        let m1 = rev_add_trip(m, first.route_id@, first.stop_ids.deep_view());
        lemma_rev_add_trip_members(m, first.route_id@, first.stop_ids.deep_view());
        lemma_rev_from_members(m1, trips.drop_first());
        assert forall|k: Seq<char>, r: Seq<char>| true implies (#[trigger] serves(trips, k, r)
            <==> ((first.route_id@ == r && first.stop_ids.deep_view().contains(k)) || serves(
            trips.drop_first(),
            k,
            r,
        ))) by {
            if serves(trips, k, r) {
                let i = choose|i: int|
                    0 <= i < trips.len() && trips[i].route_id@ == r
                        && trips[i].stop_ids.deep_view().contains(k);
                if i > 0 {
                    assert(trips.drop_first()[i - 1] == trips[i]);
                }
            }
            if serves(trips.drop_first(), k, r) {
                let i = choose|i: int|
                    0 <= i < trips.drop_first().len() && trips.drop_first()[i].route_id@ == r
                        && trips.drop_first()[i].stop_ids.deep_view().contains(k);
                assert(trips[i + 1] == trips.drop_first()[i]);
            }
        }
        assert forall|k: Seq<char>| true implies (#[trigger] visited(trips, k) <==> (
        first.stop_ids.deep_view().contains(k) || visited(trips.drop_first(), k))) by {
            if visited(trips, k) {
                let i = choose|i: int|
                    0 <= i < trips.len() && trips[i].stop_ids.deep_view().contains(k);
                if i > 0 {
                    assert(trips.drop_first()[i - 1] == trips[i]);
                }
            }
            if visited(trips.drop_first(), k) {
                let i = choose|i: int|
                    0 <= i < trips.drop_first().len() && trips.drop_first()[
                        i
                    ].stop_ids.deep_view().contains(k);
                assert(trips[i + 1] == trips.drop_first()[i]);
            }
        }
        assert forall|k: Seq<char>| #[trigger]
            rev_from(m, trips).dom().contains(k) <==> (m.dom().contains(k) || visited(
            trips,
            k,
        )) by {
            assert(rev_from(m1, trips.drop_first()).dom().contains(k) <==> (m1.dom().contains(k)
                || visited(trips.drop_first(), k)));
            assert(rev_add_trip(m, first.route_id@, first.stop_ids.deep_view()).dom().contains(k)
                <==> (m.dom().contains(k) || first.stop_ids.deep_view().contains(k)));
        }
        assert forall|k: Seq<char>, r: Seq<char>|
            rev_from(m, trips).dom().contains(k) implies (#[trigger] rev_from(m, trips)[
            k
        ].contains(r) <==> ((m.dom().contains(k) && m[k].contains(r)) || serves(trips, k, r))) by {
            assert(rev_from(m1, trips.drop_first()).dom().contains(k));
            assert(rev_from(m1, trips.drop_first())[k].contains(r) <==> ((m1.dom().contains(k)
                && m1[k].contains(r)) || serves(trips.drop_first(), k, r)));
            assert(rev_add_trip(m, first.route_id@, first.stop_ids.deep_view()).dom().contains(k)
                <==> (m.dom().contains(k) || first.stop_ids.deep_view().contains(k)));
            if m1.dom().contains(k) {
                assert(rev_add_trip(m, first.route_id@, first.stop_ids.deep_view())[k].contains(r)
                    <==> ((m.dom().contains(k) && m[k].contains(r)) || (
                first.stop_ids.deep_view().contains(k) && r == first.route_id@)));
            }
        }
    }
}

/// The membership law: the reverse lookup has an entry for a stop exactly
/// when some trip visits it, and that entry lists a route exactly when
/// some trip on that route visits the stop.
pub proof fn lemma_reverse_membership(trips: Seq<Trip>)
    ensures
        forall|stop: Seq<char>| #[trigger]
            reverse_of(trips).dom().contains(stop) <==> visited(trips, stop),
        forall|stop: Seq<char>, route: Seq<char>|
            reverse_of(trips).dom().contains(stop) ==> (#[trigger] reverse_of(trips)[stop].contains(route) <==> serves(trips, stop, route)),
{
    lemma_rev_from_members(empty_routes(), trips);
}

} // verus!
