//! What the transit ingest reads of a transit archive.

use crate::graph::Snap;
use vstd::prelude::*;

verus! {

/// Whether a pathway can be used one way only or both ways.
#[derive(Clone, Copy, Debug, PartialEq, Eq)]
pub enum PathwayDirection {
    Unidirectional,
    Bidirectional,
}

/// A walkable connection from the stop that declares it to another stop.
#[derive(Debug)]
pub struct Pathway {
    pub to_stop_id: String,
    pub direction: PathwayDirection,
    pub traversal_time: Option<u32>,
}

/// A stop with its position in nanodegrees and the node nearest to that
/// position, which whoever holds the spatial index has looked up.
#[derive(Debug)]
pub struct Stop {
    pub id: String,
    pub longitude: Option<i64>,
    pub latitude: Option<i64>,
    pub nearest: Option<Snap>,
    pub pathways: Vec<Pathway>,
}

/// One call of a trip at a stop; times are seconds past midnight.
#[derive(Debug)]
pub struct StopTime {
    pub stop_id: String,
    pub arrival_time: Option<u32>,
    pub departure_time: Option<u32>,
}

/// The calls of one trip in the order in which it makes them.
#[derive(Debug)]
pub struct Trip {
    pub stop_times: Vec<StopTime>,
}

/// The stops and the trips of a transit archive.
#[derive(Debug)]
pub struct Feed {
    pub stops: Vec<Stop>,
    pub trips: Vec<Trip>,
}

} // verus!
