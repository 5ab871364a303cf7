//! Map-visualization and intersection-analysis core of a traffic-network tool.
//!
//! The crate has two halves. One renders heterogeneous map entities (lanes,
//! intersections, buildings, parcels, extra shapes, turns, pedestrians) with
//! spatial hit-testing: a spatial index prunes by bounding rectangle, and a
//! renderable registry answers exact point containment, tooltips and draw
//! commands per entity. The other groups adjacent intersections into logical
//! clusters and synthesizes uber-turns: composite movement paths that enter a
//! cluster from an external lane, cross its member intersections by a chain of
//! turns, and exit to an external lane, enumerated both restricted to legal
//! turns and over all geometrically possible movements. An interactive
//! session picks membership sets and pages through the synthesized paths.

pub mod cluster;
pub mod geometry;
pub mod map_data;
pub mod render;
pub mod session;
pub mod spatial;
pub mod uber;

pub use cluster::IntersectionCluster;
pub use geometry::{get_bbox, Bounds, Pt, Rect};
pub use map_data::{Intersection, Lane, MapModel, Turn};
pub use render::{DrawMap, Entity, Renderable, ID};
pub use session::{UberTurnPicker, UberTurnViewer};
pub use spatial::SpatialIndex;
pub use uber::{find_uber_turns, UberTurn};
