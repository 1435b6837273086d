//! Verified core of a ForceAtlas2 layout kernel.
pub mod matrices;
pub mod js_math;
pub mod quadtree;
pub mod layout;
