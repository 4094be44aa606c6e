//! Reconstruction of connected, same-named street networks from fragmented
//! map data: ways are grouped by their name attribute, turned into polyline
//! segments with bounding envelopes, tested pairwise for exact geometric
//! intersection, and clustered into connected components, each of which is
//! emitted as one named street.

pub mod geom;
pub mod store;
pub mod cluster;
pub mod streets;
pub mod output;

pub use geom::Coord;
pub use streets::{Street, get_streets};
pub use output::OutputExt;
