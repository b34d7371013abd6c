//! A printed-circuit-board autorouter core: a parser for the parenthesized,
//! tag-prefixed board description format, a typed board model built from the
//! parsed tree, a discretized routing grid, and a Lee-style wavefront router
//! that connects net terminals while avoiding obstacles.

pub mod raster_solver;
pub mod router;
pub mod s_exp_parser;
pub mod value;
