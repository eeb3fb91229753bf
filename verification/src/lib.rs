//! Layered JSON and TOML configuration: the value tree, its merge, and
//! `${...}` interpolation over it.

pub mod text;
pub mod value;
pub mod path;
pub mod rules;
pub mod merge;
pub mod lock;
pub mod scan;
pub mod interp_error;
pub mod interp;
pub mod interp_order;
pub mod fs;
pub mod walk_law;
pub mod format;
pub mod emit;
pub mod matrix;
pub mod explain;
pub mod set;
pub mod accumulate;
pub mod discover;
pub mod leaf;
pub mod product;
pub mod pipeline;
