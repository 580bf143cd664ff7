//! The query parameter records the request-handling layer hands to the
//! core, and the required-field checks on them.

use vstd::prelude::*;

use crate::dataset::StoreError;

verus! {

/// The credential parameter of a refresh request.
pub struct Key {
    pub key: Option<String>,
}

/// The trip-identifier parameter of trip, shape and schedule requests.
pub struct TripQuery {
    pub trip_id: Option<String>,
}

/// The stop-identifier parameter of a stop-to-routes request.
pub struct StopQuery {
    pub stop_id: Option<String>,
}

impl Key {
    /// The credential, or `MissingParameter` when absent.
    pub fn require(&self) -> (r: Result<&String, StoreError>)
        ensures
            match r {
                Ok(k) => self.key == Some(*k),
                Err(e) => e == StoreError::MissingParameter && self.key is None,
            },
    {
        match &self.key {
            Some(k) => Ok(k),
            None => Err(StoreError::MissingParameter),
        }
    }
}

impl TripQuery {
    /// The trip identifier, or `MissingParameter` when absent.
    pub fn require(&self) -> (r: Result<&String, StoreError>)
        ensures
            match r {
                Ok(k) => self.trip_id == Some(*k),
                Err(e) => e == StoreError::MissingParameter && self.trip_id is None,
            },
    {
        match &self.trip_id {
            Some(k) => Ok(k),
            None => Err(StoreError::MissingParameter),
        }
    }
}

impl StopQuery {
    /// The stop identifier, or `MissingParameter` when absent.
    pub fn require(&self) -> (r: Result<&String, StoreError>)
        ensures
            match r {
                Ok(k) => self.stop_id == Some(*k),
                Err(e) => e == StoreError::MissingParameter && self.stop_id is None,
            },
    {
        match &self.stop_id {
            Some(k) => Ok(k),
            None => Err(StoreError::MissingParameter),
        }
    }
}

} // verus!
