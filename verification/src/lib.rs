//! Grid routing for printed circuit boards.
pub mod answer_laws;
mod astar;
mod board;
pub mod board_laws;
pub mod cells;
pub mod check_laws;
pub mod clearance;
pub mod collect;
mod commit;
pub mod design;
pub mod design_laws;
pub mod digits;
pub mod drawing_laws;
pub mod drc;
pub mod drc_laws;
pub mod drc_pairs;
pub mod drc_rank;
pub mod drc_report;
pub mod drc_sites;
pub mod drill_laws;
pub mod dsn;
pub mod field_laws;
pub mod file_laws;
pub mod fixtures;
pub mod geometry;
mod grid;
pub mod group_laws;
pub mod groups;
pub mod halo;
mod heap;
pub mod hole_laws;
pub mod ingest;
mod isolated;
pub mod layers;
mod lee;
pub mod legal;
pub mod legal_laws;
pub mod legalize;
pub mod lone_laws;
pub mod magnitude;
pub mod magnitude_laws;
pub mod nego_laws;
pub mod negotiate;
pub mod negotiated;
pub mod library;
mod net;
pub mod net_laws;
pub mod number;
pub mod orders;
pub mod pads;
mod parallel;
pub mod parts_laws;
mod path;
pub mod placement;
pub mod pin_laws;
pub mod pnp;
pub mod pricing;
pub mod provider;
pub mod rescue;
pub mod rescue_laws;
pub mod reach_laws;
pub mod reading;
pub mod rip_laws;
mod ripup;
mod router;
pub mod score_laws;
pub mod scoring;
pub mod search;
pub mod sexpr;
pub mod shuffle;
pub mod site_laws;
pub mod sorting;
pub mod spacing_laws;
pub mod stamp_laws;
pub mod structure_laws;
pub mod sweep;
pub mod tally;
pub mod task;
mod text;
pub mod text_laws;
mod trace;
pub mod turn_laws;
mod variant;
mod via;
pub mod via_stack;
pub mod ways;
pub mod weight_laws;

pub use astar::AStarRouter;
pub use board::{CellIdx, Cost, Dims, OBSTACLE};
pub use geometry::{Geometry, GridLines, IsolatedRouteWindow, Reach};
pub use grid::{BoardMask, Grid, GridBuilder};
pub use lee::LeeRouter;
pub use negotiated::{NegotiatedOutcome, NegotiatedRouter};
pub use net::{BoardRoute, NetEndpoints, RouteResult, RouterError};
pub use provider::{IsolatedRouteProvider, IsolatedRouteRequest};
pub use ripup::{RipUpRouter, MAX_PASSES};
pub use router::Router;
pub use sweep::{bfs_distance_field, sweep_distance_field};
pub use trace::{CandidateEval, IterSnapshot, LegalizationTrace, RouteTrace, TracedNet};
pub use via::ViaModel;
