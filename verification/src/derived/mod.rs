//! Per-brick surface data derived from the world, and the pipeline that keeps it current.
pub mod closed_surface;
pub mod coverage;
pub mod facing;
pub mod groups;
pub mod history;
pub mod merging;
pub mod mesh;
pub mod pipeline;
pub mod queue;
pub mod slots;
pub mod snapshot;
pub mod store;
pub mod surface;
pub mod triangles;
pub mod watertight;
