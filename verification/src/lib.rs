//! Spatial indexing and procedural parcel generation for a road-network map.
//!
//! The crate models a city map's parcel (lot) subsystem: a coarse spatial
//! index over axis-aligned bounding boxes, a store of parcels keyed by
//! generational identifiers, a deterministic greedy placement walk along a
//! road's frontage, and a retraction pass that removes parcels invalidated by
//! a road edit. All geometry is exact integer geometry: shapes are convex
//! polygons and intersection is decided by a separating-axis test.

#![verifier::loop_isolation(false)]

pub mod geometry;
pub mod polyline;
pub mod spatial;
pub mod lots;
pub mod sizes;
pub mod terrain;
pub mod world;
pub mod generate;
pub mod render;
pub mod laws;
