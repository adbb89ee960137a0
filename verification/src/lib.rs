//! Reconstruction of streets and administrative boundaries from tagged
//! map fragments: endpoint chaining, spatial clustering and boundary overlay.

pub mod admin;
pub mod chainable;
pub mod cluster;
pub mod filter;
pub mod geo;
pub mod graph;
pub mod items;
pub mod osm;
pub mod overlay;
pub mod resolve;
pub mod roads;
pub mod spatial;
pub mod streets;
