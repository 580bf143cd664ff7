//! End-to-end tests of the snapshot store: index and reverse-lookup
//! derivation, queries, and the credential-gated refresh.

use transit_index::Coordinate;
use transit_index::Key;
use transit_index::StopQuery;
use transit_index::Dataset;
use transit_index::Extent;
use transit_index::LoadError;
use transit_index::Route;
use transit_index::Shape;
use transit_index::ShapePoint;
use transit_index::Stop;
use transit_index::Store;
use transit_index::StoreError;
use transit_index::Trip;
use transit_index::TripQuery;

/// One fixed-point unit per ten-millionth of a degree.
const DEG: i64 = 10_000_000;

fn stop(id: &str, lon_deg10m: Option<(i64, i64)>) -> Stop {
    Stop {
        id: id.to_string(),
        coord: lon_deg10m.map(|(x, y)| Coordinate { x, y }),
    }
}

fn trip(id: &str, route_id: &str, stops: &[&str], shape_id: Option<&str>) -> Trip {
    Trip {
        id: id.to_string(),
        route_id: route_id.to_string(),
        stop_ids: stops.iter().map(|s| s.to_string()).collect(),
        shape_id: shape_id.map(|s| s.to_string()),
        direction_id: Some(0),
    }
}

/// Stop `S1` at (2.0, 48.0) and stop `S2` at (2.1, 48.1), a trip on route
/// `R1` visiting `[S1, S2, S1]`, and a shape for that trip.
fn sample_dataset() -> Dataset {
    Dataset {
        stops: vec![
            stop("S1", Some((2 * DEG, 48 * DEG))),
            stop("S2", Some((21 * DEG / 10, 481 * DEG / 10))),
            stop("S3", None),
        ],
        trips: vec![trip("T1", "R1", &["S1", "S2", "S1"], Some("SH1"))],
        routes: vec![Route { id: "R1".to_string(), long_name: "Line One".to_string() }],
        shapes: vec![Shape {
            id: "SH1".to_string(),
            points: vec![
                ShapePoint { coord: Coordinate { x: 2 * DEG, y: 48 * DEG }, sequence: 0 },
                ShapePoint {
                    coord: Coordinate { x: 21 * DEG / 10, y: 481 * DEG / 10 },
                    sequence: 1,
                },
            ],
        }],
    }
}

fn region() -> Extent {
    Extent::new(19 * DEG / 10, 47 * DEG, 23 * DEG / 10, 49 * DEG)
}

fn sample_store() -> Store {
    Store::new(sample_dataset(), region(), &"s3cr3t".to_string())
}

fn bbox_ids(store: &Store, west: i64, south: i64, east: i64, north: i64) -> Vec<String> {
    let mut ids: Vec<String> = store
        .stops_in_bbox(west, south, east, north)
        .unwrap()
        .into_iter()
        .map(|p| p.0)
        .collect();
    ids.sort();
    ids
}

#[test]
fn bbox_query_finds_both_stops() {
    let store = sample_store();
    // Extent (west 2.0, south 47.9, east 2.2, north 48.2) holds both.
    let ids = bbox_ids(&store, 2 * DEG, 479 * DEG / 10, 22 * DEG / 10, 482 * DEG / 10);
    assert_eq!(ids, vec!["S1".to_string(), "S2".to_string()]);
}

#[test]
fn narrowed_bbox_query_excludes_the_second_stop() {
    let store = sample_store();
    // Narrow the extent away from S2's containing region.
    let ids = bbox_ids(&store, 2 * DEG, 479 * DEG / 10, 22 * DEG / 10, 4795 * DEG / 100);
    assert_eq!(ids, vec!["S1".to_string()]);
}

#[test]
fn bbox_query_rejects_a_malformed_extent() {
    let store = sample_store();
    assert_eq!(
        store.stops_in_bbox(3 * DEG, 47 * DEG, 2 * DEG, 48 * DEG),
        Err(StoreError::InvalidExtent)
    );
    assert_eq!(
        store.stops_in_bbox(2 * DEG, 48 * DEG, 3 * DEG, 47 * DEG),
        Err(StoreError::InvalidExtent)
    );
}

#[test]
fn stop_without_coordinates_is_not_indexed() {
    let store = sample_store();
    let ids = bbox_ids(&store, 19 * DEG / 10, 47 * DEG, 23 * DEG / 10, 49 * DEG);
    assert!(!ids.contains(&"S3".to_string()));
}

#[test]
fn stop_outside_the_region_is_not_indexed() {
    let mut ds = sample_dataset();
    ds.stops.push(stop("FAR", Some((10 * DEG, 10 * DEG))));
    let store = Store::new(ds, region(), &"s3cr3t".to_string());
    let ids = bbox_ids(&store, 19 * DEG / 10, 47 * DEG, 23 * DEG / 10, 49 * DEG);
    assert_eq!(ids, vec!["S1".to_string(), "S2".to_string()]);
}

#[test]
fn reverse_lookup_deduplicates_a_revisited_stop() {
    let store = sample_store();
    // The trip visits [S1, S2, S1] on R1: S1 maps to [R1], not [R1, R1].
    assert_eq!(store.stop_routes(&"S1".to_string()), Ok(vec!["R1".to_string()]));
    assert_eq!(store.stop_routes(&"S2".to_string()), Ok(vec!["R1".to_string()]));
}

#[test]
fn reverse_lookup_keeps_first_visit_order() {
    let mut ds = sample_dataset();
    ds.trips.push(trip("T2", "R2", &["S2", "S1"], None));
    ds.routes.push(Route { id: "R2".to_string(), long_name: "Line Two".to_string() });
    let store = Store::new(ds, region(), &"s3cr3t".to_string());
    assert_eq!(
        store.stop_routes(&"S1".to_string()),
        Ok(vec!["R1".to_string(), "R2".to_string()])
    );
}

#[test]
fn unknown_stop_has_no_reverse_entry() {
    let store = sample_store();
    assert_eq!(store.stop_routes(&"S9".to_string()), Err(StoreError::NotFound));
}

#[test]
fn trip_info_resolves_route_name_and_direction() {
    let store = sample_store();
    let q = TripQuery { trip_id: Some("T1".to_string()) };
    assert_eq!(store.trip_info(&q), Ok(("Line One".to_string(), Some(0))));
}

#[test]
fn trip_info_reports_missing_and_unknown_identifiers() {
    let store = sample_store();
    assert_eq!(
        store.trip_info(&TripQuery { trip_id: None }),
        Err(StoreError::MissingParameter)
    );
    assert_eq!(
        store.trip_info(&TripQuery { trip_id: Some("T9".to_string()) }),
        Err(StoreError::NotFound)
    );
}

#[test]
fn trip_shape_returns_the_ordered_points() {
    let store = sample_store();
    let q = TripQuery { trip_id: Some("T1".to_string()) };
    let points = store.trip_shape(&q).unwrap();
    assert_eq!(points.len(), 2);
    assert_eq!(points[0].sequence, 0);
    assert_eq!(points[1].sequence, 1);
    assert_eq!((points[0].coord.x, points[0].coord.y), (2 * DEG, 48 * DEG));
}

#[test]
fn trip_without_a_shape_reports_not_found() {
    let mut ds = sample_dataset();
    ds.trips.push(trip("T2", "R1", &["S1"], None));
    let store = Store::new(ds, region(), &"s3cr3t".to_string());
    let q = TripQuery { trip_id: Some("T2".to_string()) };
    assert_eq!(store.trip_shape(&q), Err(StoreError::NotFound));
}

#[test]
fn trip_record_returns_the_stored_trip() {
    let store = sample_store();
    let q = TripQuery { trip_id: Some("T1".to_string()) };
    let t = store.trip_record(&q).unwrap();
    assert_eq!(t.id, "T1");
    assert_eq!(t.route_id, "R1");
    assert_eq!(t.stop_ids, vec!["S1".to_string(), "S2".to_string(), "S1".to_string()]);
}

#[test]
fn refresh_with_wrong_credential_changes_nothing() {
    let mut store = sample_store();
    let before_bbox = bbox_ids(&store, 2 * DEG, 479 * DEG / 10, 22 * DEG / 10, 482 * DEG / 10);
    let before_routes = store.stop_routes(&"S1".to_string());

    let mut replacement = sample_dataset();
    replacement.stops.clear();
    let r = store.refresh_gtfs(&"wrong".to_string(), Ok(replacement));
    assert_eq!(r, Err(StoreError::Unauthorized));

    // The dataset, index and reverse lookup are untouched.
    assert_eq!(
        bbox_ids(&store, 2 * DEG, 479 * DEG / 10, 22 * DEG / 10, 482 * DEG / 10),
        before_bbox
    );
    assert_eq!(store.stop_routes(&"S1".to_string()), before_routes);
    assert_eq!(store.get_gtfs().stops.len(), 3);
}

#[test]
fn refresh_without_a_configured_credential_is_refused() {
    let mut store = Store::new(sample_dataset(), region(), &"".to_string());
    let r = store.refresh_gtfs(&"".to_string(), Ok(sample_dataset()));
    assert_eq!(r, Err(StoreError::Unauthorized));
}

#[test]
fn refresh_with_failed_reload_keeps_prior_values() {
    let mut store = sample_store();
    let r = store.refresh_gtfs(
        &"s3cr3t".to_string(),
        Err(LoadError { message: "no such file".to_string() }),
    );
    assert_eq!(r, Err(StoreError::LoadFailure));
    assert_eq!(store.get_gtfs().stops.len(), 3);
    assert_eq!(store.stop_routes(&"S1".to_string()), Ok(vec!["R1".to_string()]));
}

#[test]
fn refresh_with_correct_credential_swaps_all_resources() {
    let mut store = sample_store();
    let mut replacement = sample_dataset();
    replacement.stops.retain(|s| s.id != "S2");
    replacement.trips = vec![trip("T5", "R5", &["S1"], None)];
    replacement.routes = vec![Route { id: "R5".to_string(), long_name: "Line Five".to_string() }];

    let r = store.refresh_gtfs(&"s3cr3t".to_string(), Ok(replacement));
    assert_eq!(r, Ok(()));
    let ids = bbox_ids(&store, 19 * DEG / 10, 47 * DEG, 23 * DEG / 10, 49 * DEG);
    assert_eq!(ids, vec!["S1".to_string()]);
    assert_eq!(store.stop_routes(&"S1".to_string()), Ok(vec!["R5".to_string()]));
    assert_eq!(store.stop_routes(&"S2".to_string()), Err(StoreError::NotFound));
}

#[test]
fn authorize_requires_a_configured_matching_credential() {
    let store = sample_store();
    assert!(store.authorize(&"s3cr3t".to_string()));
    assert!(!store.authorize(&"s3cr3".to_string()));
    assert!(!store.authorize(&"s3cr3t ".to_string()));
    let open_store = Store::new(sample_dataset(), region(), &"".to_string());
    assert!(!open_store.authorize(&"".to_string()));
}

#[test]
fn dataset_lookups_find_records_by_identifier() {
    let ds = sample_dataset();
    assert_eq!(ds.get_trip(&"T1".to_string()).unwrap().route_id, "R1");
    assert_eq!(ds.get_route(&"R1".to_string()).unwrap().long_name, "Line One");
    assert_eq!(ds.get_shape(&"SH1".to_string()).unwrap().points.len(), 2);
    assert_eq!(ds.get_trip(&"T9".to_string()).err(), Some(StoreError::NotFound));
    assert_eq!(ds.get_route(&"R9".to_string()).err(), Some(StoreError::NotFound));
    assert_eq!(ds.get_shape(&"SH9".to_string()).err(), Some(StoreError::NotFound));
}

#[test]
fn query_records_report_their_missing_parameters() {
    assert_eq!(
        Key { key: None }.require().err(),
        Some(StoreError::MissingParameter)
    );
    assert_eq!(
        Key { key: Some("k".to_string()) }.require().ok(),
        Some(&"k".to_string())
    );
    assert_eq!(
        StopQuery { stop_id: None }.require().err(),
        Some(StoreError::MissingParameter)
    );
    assert_eq!(
        StopQuery { stop_id: Some("S1".to_string()) }.require().ok(),
        Some(&"S1".to_string())
    );
    assert_eq!(
        TripQuery { trip_id: None }.require().err(),
        Some(StoreError::MissingParameter)
    );
}
