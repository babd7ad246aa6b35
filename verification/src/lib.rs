//! Renders the systems and system sets of a schedule, with their hierarchy and
//! their ordering constraints, as a clustered graph in the DOT language.

pub mod classify;
pub mod cli;
pub mod collapse;
pub mod collections;
pub mod d2;
pub mod dot;
pub mod event_graph;
pub mod graph;
pub mod inclusion;
pub mod layout;
pub mod names;
pub mod reduction;
pub mod render_graph;
pub mod schedule;
pub mod schedule_graph;
pub mod search;
pub mod sequences;
pub mod settings;
pub mod stage_graph;
pub mod system_style;
pub mod text;
