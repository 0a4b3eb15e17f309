//! Autorouting on a rectangular board of pads grouped into nets: an exact
//! shortest-path search with straight and diagonal moves, a spanning-tree
//! selection of the connections of each net, a deterministic router, and the
//! bookkeeping of a probabilistic router that keeps competing candidate traces.

pub mod commands;
pub mod cost;
pub mod dijkstra;
pub mod grid;
pub mod hyperparameters;
pub mod interface_types;
pub mod naive_route;
pub mod prim_mst;
pub mod proba_grid;
pub mod solve_proba_grid;
pub mod table;
pub mod text;
