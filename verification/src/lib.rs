//! A verified geospatial index and snapshot store for static transit
//! schedule data.
//!
//! The crate provides planar geometry primitives, a bucketed point quadtree
//! over fixed-point coordinates, a plain-value model of a transit schedule
//! dataset, a derived stop-to-routes lookup, and a snapshot store that owns
//! all three resources and rebuilds them behind a credential check.

pub mod dataset;
pub mod geom;
pub mod quadtree;
pub mod queries;
pub mod reverse;
pub mod store;

pub use dataset::Dataset;
pub use dataset::LoadError;
pub use dataset::Route;
pub use dataset::Shape;
pub use dataset::ShapePoint;
pub use dataset::Stop;
pub use dataset::StoreError;
pub use dataset::Trip;
pub use geom::Coordinate;
pub use geom::Extent;
pub use quadtree::QuadTree;
pub use store::Store;
pub use queries::Key;
pub use queries::StopQuery;
pub use queries::TripQuery;
