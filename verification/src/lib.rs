//! Core of a PlantUML-compatible diagram renderer: a parser for the textual
//! diagram language and deterministic layout engines that assign positions,
//! sizes and routed poly-lines to every visual element.
//!
//! Coordinates are integer pixel units throughout; all geometry is exact.

use vstd::prelude::*;

pub mod ast;
pub mod gast;
pub mod laws;
mod geom;
pub mod model;
mod nametable;
mod numfmt;
pub mod parser;
mod scan;
pub mod seq_config;
pub mod state_ast;
pub mod state_engine;
pub mod seq_engine;
pub mod seq_metrics;
mod stmt;

pub use parser::ParseError;
pub use parser::SequenceParser;
pub use parser::parse_sequence;
pub use seq_engine::SequenceLayoutEngine;
pub use seq_config::SequenceLayoutConfig;
pub use state_engine::StateLayoutEngine;
pub use state_engine::StateLayoutConfig;

pub use geom::Point;
pub use geom::Rect;

verus! {

} // verus!
