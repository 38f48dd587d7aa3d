//! Time-dependent reachability on a multimodal graph of walkable streets and
//! scheduled transit: for an arrival point, an arrival time and a travel
//! budget, the nodes from which the point can still be reached in time.
//!
//! The crate works on whole numbers only: times are seconds, distances are
//! metres, coordinates are nanodegrees. Geometry on the sphere is left to the
//! caller, who hands in the distances that the rules of this crate consume.
//!
//! - [`graph`] holds nodes, edges and the graph; [`node_map`] is the map it
//!   is made of.
//! - [`osm`] and [`gtfs`] hold what is read of the two inputs;
//!   [`graph_builder`] turns them into a graph, and [`ingest_laws`] says what
//!   every graph so built can be relied on for.
//! - [`dijkstra`] is the search, on top of [`queue`]; [`search_laws`] says
//!   what its costs mean.
//! - [`clock`] reads the arrival time of a query, and [`isochrone`] takes a
//!   query from its text to the points an isoline is drawn around.

pub mod clock;
pub mod dijkstra;
pub mod graph;
pub mod graph_builder;
pub mod graph_laws;
pub mod gtfs;
pub mod ingest_laws;
pub mod isochrone;
pub mod node_map;
pub mod osm;
pub mod queue;
pub mod search_laws;
mod search_state;
pub mod text;
